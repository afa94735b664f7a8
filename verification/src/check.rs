//! The check that a job should have in the monitoring service, and what the
//! service's answer to a create-or-update request means for the job.

use crate::text::pieces;
use vstd::prelude::*;

verus! {

/// The settings that every check of a run shares.
#[derive(Clone, Debug, PartialEq, Eq)]
pub struct CheckDefaults {
    /// The time zone in which schedules are read.
    pub timezone: String,
    /// The expected period of a check, in seconds.
    pub timeout: i32,
    /// How late a ping may be before the check counts as failed, in seconds.
    pub grace: i32,
    /// The notification channels, as one comma-separated list.
    pub channels: String,
}

/// The shared settings as contracts see them.
pub struct CheckDefaultsView {
    pub timezone: Seq<char>,
    pub timeout: i32,
    pub grace: i32,
    pub channels: Seq<char>,
}

impl View for CheckDefaults {
    type V = CheckDefaultsView;

    open spec fn view(&self) -> CheckDefaultsView {
        CheckDefaultsView {
            timezone: self.timezone@,
            timeout: self.timeout,
            grace: self.grace,
            channels: self.channels@,
        }
    }
}

/// The check that one job should have. It is built afresh for each job and
/// handed to the monitoring service, which finds an existing check by the
/// fields named in `unique`.
#[derive(Clone, Debug, PartialEq, Eq)]
pub struct DesiredCheck {
    pub name: String,
    pub schedule: String,
    /// The job's tags with one space between neighbours.
    pub tags: String,
    pub timeout: i32,
    pub grace: i32,
    pub timezone: String,
    pub channels: String,
    /// The fields by which an existing check is recognised.
    pub unique: Vec<String>,
}

/// A desired check as contracts see it.
pub struct DesiredCheckView {
    pub name: Seq<char>,
    pub schedule: Seq<char>,
    pub tags: Seq<char>,
    pub timeout: i32,
    pub grace: i32,
    pub timezone: Seq<char>,
    pub channels: Seq<char>,
    pub unique: Seq<Seq<char>>,
}

impl View for DesiredCheck {
    type V = DesiredCheckView;

    open spec fn view(&self) -> DesiredCheckView {
        DesiredCheckView {
            name: self.name@,
            schedule: self.schedule@,
            tags: self.tags@,
            timeout: self.timeout,
            grace: self.grace,
            timezone: self.timezone@,
            channels: self.channels@,
            unique: self.unique.deep_view(),
        }
    }
}

/// The field by which a check is recognised: its name.
pub open spec fn unique_field() -> Seq<char> {
    seq!['n', 'a', 'm', 'e']
}

/// The check of the job with this name, schedule and tag string: the shared
/// settings fill the rest, and the check is unique by name.
pub open spec fn desired(
    name: Seq<char>,
    schedule: Seq<char>,
    tags: Seq<char>,
    defaults: CheckDefaultsView,
) -> DesiredCheckView {
    DesiredCheckView {
        name,
        schedule,
        tags,
        timeout: defaults.timeout,
        grace: defaults.grace,
        timezone: defaults.timezone,
        channels: defaults.channels,
        unique: seq![unique_field()],
    }
}

/// Builds the check that a job should have.
pub fn desired_check(name: &str, schedule: &str, tags: String, defaults: &CheckDefaults) -> (check:
    DesiredCheck)
    ensures
        check@ == desired(name@, schedule@, tags@, defaults@),
{
    let mut unique: Vec<String> = Vec::new();
    proof {
        reveal_strlit("name");
        assert("name"@ =~= unique_field());
    }
    unique.push("name".to_owned());
    assert(unique.deep_view() =~= seq![unique_field()]);
    DesiredCheck {
        name: name.to_owned(),
        schedule: schedule.to_owned(),
        tags,
        timeout: defaults.timeout,
        grace: defaults.grace,
        timezone: defaults.timezone.clone(),
        channels: defaults.channels.clone(),
        unique,
    }
}

/// Whether the service made a new check or changed one it had.
#[derive(Clone, Copy, Debug, PartialEq, Eq, Structural)]
pub enum UpsertStatus {
    /// No check of this name existed; one was made.
    Created,
    /// A check of this name existed; its fields were overwritten.
    Updated,
}

/// The service's answer to a create-or-update request.
#[derive(Clone, Debug, PartialEq, Eq)]
pub enum UpsertReply {
    /// The request went through. The check's ping address may be withheld.
    Done { status: UpsertStatus, ping_url: Option<String> },
    /// The request failed.
    Failed,
}

/// What reconciliation obtained for one job.
#[derive(Clone, Debug, PartialEq, Eq)]
pub enum Reconciled {
    /// A check was created; this is its identifier.
    Created(String),
    /// A check was updated; this is its identifier.
    Updated(String),
    /// No identifier was obtained. The job is skipped; the batch goes on.
    Failed,
}

/// The identifier in a ping address: what stands after its last slash.
pub open spec fn identifier_of(ping_url: Seq<char>) -> Seq<char> {
    pieces(ping_url, '/').last()
}

/// `healthchecks::model::Check::id` on a check with the given ping address.
/// That function cuts the address at its slashes and returns the last piece;
/// with an address at hand there always is one. The other fields of the
/// check are not read by it. Nothing here is proved.
#[verifier::external_body]
fn identifier_in(ping_url: &str) -> (id: Option<String>)
    ensures
        id is Some,
        id->0@ == identifier_of(ping_url@),
{
    healthchecks::model::Check {
        name: String::new(), tags: String::new(), desc: String::new(), grace: 0, n_pings: 0,
        status: String::new(), last_ping: None, next_ping: None, manual_resume: false,
        ping_url: Some(ping_url.to_owned()), update_url: None, pause_url: None,
        channels: None, timeout: None, schedule: None, tz: None, unique_key: None,
    }.id()
}

/// The identifier of a check, read from its ping address. A check whose
/// address is withheld has none.
pub fn check_identifier(ping_url: Option<&str>) -> (id: Option<String>)
    ensures
        match ping_url {
            Some(url) => id matches Some(text) && text@ == identifier_of(url@),
            None => id is None,
        },
{
    match ping_url {
        Some(url) => identifier_in(url),
        None => None,
    }
}

/// What the service's answer means for the job: the identifier of the check
/// that was created or updated, or failure where the request failed or the
/// answer carries no identifier.
pub fn reconcile(reply: &UpsertReply) -> (outcome: Reconciled)
    ensures
        match *reply {
            UpsertReply::Done { status, ping_url: Some(url) } => match status {
                UpsertStatus::Created => outcome matches Reconciled::Created(id) && id@
                    == identifier_of(url@),
                UpsertStatus::Updated => outcome matches Reconciled::Updated(id) && id@
                    == identifier_of(url@),
            },
            UpsertReply::Done { ping_url: None, .. } => outcome is Failed,
            UpsertReply::Failed => outcome is Failed,
        },
{
    match reply {
        UpsertReply::Done { status, ping_url: Some(url) } => match check_identifier(
            Some(url.as_str()),
        ) {
            Some(id) => match status {
                UpsertStatus::Created => Reconciled::Created(id),
                UpsertStatus::Updated => Reconciled::Updated(id),
            },
            None => Reconciled::Failed,
        },
        UpsertReply::Done { ping_url: None, .. } => Reconciled::Failed,
        UpsertReply::Failed => Reconciled::Failed,
    }
}

/// The identifier in a ping address, where there is an address.
pub open spec fn identifier_if_any() -> spec_fn(Option<String>) -> Option<Seq<char>> {
    |ping_url: Option<String>|
        match ping_url {
            Some(url) => Some(identifier_of(url@)),
            None => None,
        }
}

/// The identifiers of the checks with these ping addresses, in order. A
/// check whose address is withheld has none and is left out.
pub open spec fn identifiers(ping_urls: Seq<Option<String>>) -> Seq<Seq<char>> {
    ping_urls.filter_map(identifier_if_any())
}

/// Whether the existing checks are cleared before reconciliation begins:
/// only where that is asked for, and never in a dry run.
pub fn clears_checks(dry_run: bool, clear_existing: bool) -> (clears: bool)
    ensures
        clears == (!dry_run && clear_existing),
{
    !dry_run && clear_existing
}

/// The checks to delete before reconciliation begins, given the ping
/// addresses of the checks that exist: all that have an identifier where
/// clearing is asked for and the run is not a dry run, and none otherwise.
pub fn checks_to_clear(dry_run: bool, clear_existing: bool, ping_urls: &Vec<Option<String>>) -> (ids:
    Vec<String>)
    ensures
        ids.deep_view() == if !dry_run && clear_existing {
            identifiers(ping_urls@)
        } else {
            Seq::<Seq<char>>::empty()
        },
{
    let mut ids: Vec<String> = Vec::new();
    if !clears_checks(dry_run, clear_existing) {
        assert(ids.deep_view() =~= Seq::<Seq<char>>::empty());
        return ids;
    }
    let mut i: usize = 0;
    assert(ping_urls@.take(0) =~= Seq::<Option<String>>::empty());
    assert(ids.deep_view() =~= identifiers(ping_urls@.take(0)));
    while i < ping_urls.len()
        invariant
            i <= ping_urls.len(),
            ids.deep_view() == identifiers(ping_urls@.take(i as int)),
        decreases ping_urls.len() - i,
    {
        let ghost before = ids.deep_view();
        proof {
            ping_urls@.lemma_filter_map_take_succ(identifier_if_any(), i as int);
        }
        match &ping_urls[i] {
            Some(url) => match check_identifier(Some(url.as_str())) {
                Some(id) => {
                    ids.push(id);
                    assert(ids.deep_view() =~= before + seq![identifier_of(url@)]);
                },
                None => {},
            },
            None => {
                assert(before + Seq::<Seq<char>>::empty() =~= before);
            },
        }
        i = i + 1;
    }
    assert(ping_urls@.take(i as int) =~= ping_urls@);
    ids
}

} // verus!

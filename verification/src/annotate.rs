//! Writing a check's identifier into the environment of a job's containers,
//! and telling whether anything was changed by it.

use crate::job::Container;
use crate::job::EnvEntry;
use crate::job::EnvVar;
use crate::text::same_text;
use vstd::prelude::*;

verus! {

/// The keys of the entries, in order.
pub open spec fn keys(env: Seq<EnvEntry>) -> Seq<Seq<char>> {
    Seq::new(env.len(), |i: int| env[i].key)
}

/// The position of the first entry under `key`, if there is one. An entry is
/// found by its key, whatever its value.
pub open spec fn slot(env: Seq<EnvEntry>, key: Seq<char>) -> Option<int> {
    keys(env).index_of_first(key)
}

/// Whether the first entry under `key` already holds `id`.
pub open spec fn up_to_date(env: Seq<EnvEntry>, key: Seq<char>, id: Seq<char>) -> bool {
    slot(env, key) matches Some(i) && env[i].value == Some(id)
}

/// The environment after annotation: the first entry under `key` holds `id`
/// in its old place, or, where no entry had the key, a new entry stands at
/// the end. All other entries are as they were.
pub open spec fn annotated(env: Seq<EnvEntry>, key: Seq<char>, id: Seq<char>) -> Seq<EnvEntry> {
    match slot(env, key) {
        Some(i) => env.update(i, EnvEntry { key, value: Some(id) }),
        None => env.push(EnvEntry { key, value: Some(id) }),
    }
}

/// What annotation did to one container.
#[derive(Clone, Copy, Debug, PartialEq, Eq, Structural)]
pub enum EnvChange {
    /// The entry was there with the right value; nothing was written.
    Unchanged,
    /// The entry at this position had another value, or none, and holds the
    /// identifier now.
    Overwritten(usize),
    /// There was no entry under the key; one was added at the end.
    Appended,
}

/// The change that annotation makes to an environment.
pub open spec fn change_of(env: Seq<EnvEntry>, key: Seq<char>, id: Seq<char>) -> EnvChange {
    match slot(env, key) {
        Some(i) => if env[i].value == Some(id) {
            EnvChange::Unchanged
        } else {
            EnvChange::Overwritten(i as usize)
        },
        None => EnvChange::Appended,
    }
}

impl EnvChange {
    /// Whether the container was written to.
    pub fn is_dirty(&self) -> (dirty: bool)
        ensures
            dirty == !(*self is Unchanged),
    {
        match self {
            EnvChange::Unchanged => false,
            _ => true,
        }
    }
}

/// The first position with the key is the slot.
proof fn lemma_slot_found(env: Seq<EnvEntry>, key: Seq<char>, i: int)
    requires
        0 <= i < env.len(),
        env[i].key == key,
        forall|j: int| 0 <= j < i ==> env[j].key != key,
    ensures
        slot(env, key) == Some(i),
{
    let all = keys(env);
    all.index_of_first_ensures(key);
    assert(all[i] == key);
    assert(all.contains(key));
    let at = all.index_of_first(key)->0;
    if at < i {
        assert(env[at].key != key);
    }
    if i < at {
        assert(all[i] != key);
    }
}

/// Without the key at any position there is no slot.
proof fn lemma_slot_missing(env: Seq<EnvEntry>, key: Seq<char>)
    requires
        forall|j: int| 0 <= j < env.len() ==> env[j].key != key,
    ensures
        slot(env, key) is None,
{
    let all = keys(env);
    all.index_of_first_ensures(key);
    if all.contains(key) {
        let j = choose|j: int| 0 <= j < all.len() && all[j] == key;
        assert(env[j].key != key);
    }
}

/// Whether the value is there and reads `id`.
fn holds(value: &Option<String>, id: &str) -> (same: bool)
    ensures
        same == (value matches Some(text) && text@ == id@),
{
    match value {
        Some(text) => same_text(text.as_str(), id),
        None => false,
    }
}

/// Makes the container's environment say `key = id`. The first entry under
/// `key` is looked up. If it holds `id` already, nothing is written; if it
/// holds something else, or no value, its value is overwritten in place; if
/// there is no such entry, one is added at the end.
pub fn annotate_container(container: &mut Container, key: &str, id: &str) -> (change: EnvChange)
    ensures
        final(container)@ == annotated(old(container)@, key@, id@),
        change == change_of(old(container)@, key@, id@),
        change is Unchanged ==> *final(container) == *old(container),
{
    let ghost before = container@;
    let mut i: usize = 0;
    while i < container.env.len()
        invariant
            i <= container.env.len(),
            *container == *old(container),
            before == container@,
            forall|j: int| 0 <= j < i ==> before[j].key != key@,
        decreases container.env.len() - i,
    {
        if same_text(container.env[i].name.as_str(), key) {
            proof {
                lemma_slot_found(before, key@, i as int);
            }
            if holds(&container.env[i].value, id) {
                assert(before.update(i as int, EnvEntry { key: key@, value: Some(id@) })
                    =~= before);
                return EnvChange::Unchanged;
            }
            container.env[i].value = Some(id.to_owned());
            assert(container@ =~= before.update(
                i as int,
                EnvEntry { key: key@, value: Some(id@) },
            ));
            return EnvChange::Overwritten(i);
        }
        i = i + 1;
    }
    proof {
        lemma_slot_missing(before, key@);
    }
    container.env.push(EnvVar { name: key.to_owned(), value: Some(id.to_owned()) });
    assert(container@ =~= before.push(EnvEntry { key: key@, value: Some(id@) }));
    EnvChange::Appended
}

/// The views of the containers, in order.
pub open spec fn environments(containers: Seq<Container>) -> Seq<Seq<EnvEntry>> {
    Seq::new(containers.len(), |i: int| containers[i]@)
}

/// Every environment annotated.
pub open spec fn all_annotated(envs: Seq<Seq<EnvEntry>>, key: Seq<char>, id: Seq<char>) -> Seq<
    Seq<EnvEntry>,
> {
    Seq::new(envs.len(), |i: int| annotated(envs[i], key, id))
}

/// Whether every environment already says `key = id`.
pub open spec fn all_up_to_date(envs: Seq<Seq<EnvEntry>>, key: Seq<char>, id: Seq<char>) -> bool {
    forall|i: int| 0 <= i < envs.len() ==> up_to_date(#[trigger] envs[i], key, id)
}

/// Annotates every container of a job with `key = id`, and tells whether the
/// job is dirty: whether at least one container was written to. A job whose
/// containers all said `key = id` already is left exactly as it was.
pub fn annotate_containers(containers: &mut Vec<Container>, key: &str, id: &str) -> (dirty: bool)
    ensures
        environments(final(containers)@) == all_annotated(environments(old(containers)@), key@, id@),
        dirty == !all_up_to_date(environments(old(containers)@), key@, id@),
        !dirty ==> final(containers)@ == old(containers)@,
{
    let ghost before = environments(containers@);
    let mut dirty = false;
    let mut i: usize = 0;
    while i < containers.len()
        invariant
            i <= containers.len(),
            containers.len() == old(containers).len(),
            before == environments(old(containers)@),
            forall|j: int| 0 <= j < i ==> (#[trigger] containers@[j])@ == annotated(before[j], key@, id@),
            forall|j: int| i <= j < containers.len() ==> #[trigger] containers@[j] == old(containers)@[j],
            dirty == !all_up_to_date(before.take(i as int), key@, id@),
            !dirty ==> containers@ == old(containers)@,
        decreases containers.len() - i,
    {
        let ghost so_far = containers@;
        let change = annotate_container(&mut containers[i], key, id);
        proof {
            let done = before.take(i as int);
            let more = before.take(i + 1);
            assert(more[i as int] == before[i as int]);
            if all_up_to_date(more, key@, id@) {
                assert forall|j: int| 0 <= j < done.len() implies up_to_date(
                    #[trigger] done[j],
                    key@,
                    id@,
                ) by {
                    assert(done[j] == more[j]);
                }
            }
            if all_up_to_date(done, key@, id@) && up_to_date(before[i as int], key@, id@) {
                assert forall|j: int| 0 <= j < more.len() implies up_to_date(
                    #[trigger] more[j],
                    key@,
                    id@,
                ) by {
                    if j < i {
                        assert(more[j] == done[j]);
                    }
                }
            }
            if change is Unchanged && !dirty {
                assert(containers@ =~= so_far);
            }
        }
        dirty = dirty || change.is_dirty();
        i = i + 1;
    }
    assert(before.take(i as int) =~= before);
    assert(environments(containers@) =~= all_annotated(before, key@, id@));
    dirty
}

/// Annotates the containers where a key is configured. Without a key nothing
/// is done and the job is not dirty.
pub fn annotate(containers: &mut Vec<Container>, env_key: Option<&str>, id: &str) -> (dirty: bool)
    ensures
        match env_key {
            Some(key) => {
                &&& environments(final(containers)@) == all_annotated(
                    environments(old(containers)@),
                    key@,
                    id@,
                )
                &&& dirty == !all_up_to_date(environments(old(containers)@), key@, id@)
            },
            None => !dirty,
        },
        !dirty ==> final(containers)@ == old(containers)@,
{
    match env_key {
        Some(key) => annotate_containers(containers, key, id),
        None => false,
    }
}

/// Annotation settles: once an environment has been annotated with
/// `key = id` it is up to date, so that annotating it again with the same
/// pair changes nothing and reports no change.
pub proof fn lemma_annotation_settles(env: Seq<EnvEntry>, key: Seq<char>, id: Seq<char>)
    ensures
        up_to_date(annotated(env, key, id), key, id),
        annotated(annotated(env, key, id), key, id) == annotated(env, key, id),
        change_of(annotated(env, key, id), key, id) == EnvChange::Unchanged,
{
    let after = annotated(env, key, id);
    keys(env).index_of_first_ensures(key);
    match slot(env, key) {
        Some(i) => {
            assert forall|j: int| 0 <= j < i implies after[j].key != key by {
                assert(keys(env)[j] != key);
            }
            lemma_slot_found(after, key, i);
        },
        None => {
            assert forall|j: int| 0 <= j < env.len() implies after[j].key != key by {
                assert(keys(env)[j] == env[j].key);
                assert(keys(env).contains(env[j].key));
            }
            lemma_slot_found(after, key, env.len() as int);
        },
    }
    lemma_up_to_date_is_kept(after, key, id);
}

/// An environment that is up to date is not written to: annotation returns
/// it as it is and reports no change.
pub proof fn lemma_up_to_date_is_kept(env: Seq<EnvEntry>, key: Seq<char>, id: Seq<char>)
    requires
        up_to_date(env, key, id),
    ensures
        annotated(env, key, id) == env,
        change_of(env, key, id) == EnvChange::Unchanged,
{
    keys(env).index_of_first_ensures(key);
    let i = slot(env, key)->0;
    assert(keys(env)[i] == env[i].key);
    assert(env.update(i, EnvEntry { key, value: Some(id) }) =~= env);
}

/// An environment in which the first entry under `key`, at position `i`, is
/// the pair `key = id` is up to date, and so is not written to.
pub proof fn lemma_correct_pair_is_up_to_date(
    env: Seq<EnvEntry>,
    key: Seq<char>,
    id: Seq<char>,
    i: int,
)
    requires
        0 <= i < env.len(),
        env[i] == (EnvEntry { key, value: Some(id) }),
        forall|j: int| 0 <= j < i ==> env[j].key != key,
    ensures
        up_to_date(env, key, id),
        annotated(env, key, id) == env,
        change_of(env, key, id) == EnvChange::Unchanged,
{
    lemma_slot_found(env, key, i);
    lemma_up_to_date_is_kept(env, key, id);
}

/// A job that has been annotated with `key = id` is clean on the next run:
/// every one of its environments is up to date, so annotating the job again
/// with the same pair leaves it as it is and does not mark it dirty.
pub proof fn lemma_second_run_is_clean(envs: Seq<Seq<EnvEntry>>, key: Seq<char>, id: Seq<char>)
    ensures
        all_up_to_date(all_annotated(envs, key, id), key, id),
        all_annotated(all_annotated(envs, key, id), key, id) == all_annotated(envs, key, id),
{
    let once = all_annotated(envs, key, id);
    assert forall|i: int| 0 <= i < once.len() implies up_to_date(#[trigger] once[i], key, id) by {
        lemma_annotation_settles(envs[i], key, id);
    }
    assert forall|i: int| 0 <= i < once.len() implies all_annotated(once, key, id)[i]
        == once[i] by {
        lemma_annotation_settles(envs[i], key, id);
    }
    assert(all_annotated(once, key, id) =~= once);
}

} // verus!

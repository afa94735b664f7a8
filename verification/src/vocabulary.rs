//! The tag vocabulary of one namespace: how often each name segment occurs in
//! the namespace's job names, cut down to the segments that are frequent
//! enough to serve as tags.

use crate::text::pieces;
use crate::text::same_text;
use crate::text::split;
use vstd::prelude::*;

verus! {

/// How a segment's occurrence count is held against the rank.
#[derive(Clone, Copy, Debug, PartialEq, Eq, Structural)]
pub enum ThresholdPolicy {
    /// A segment is kept when it occurs more often than the rank.
    Loose,
    /// A segment is kept when it occurs at least as often as the rank; with
    /// rank 0 every segment is kept.
    Strict,
}

impl ThresholdPolicy {
    /// The rank that is used where none is configured: 2 under the loose
    /// policy and 3 under the strict one, so that either way a segment
    /// becomes a tag when it occurs three times.
    pub fn default_rank(self) -> (rank: u8)
        ensures
            rank == match self {
                ThresholdPolicy::Loose => 2u8,
                ThresholdPolicy::Strict => 3u8,
            },
            forall|count: nat| meets_threshold(self, rank as nat, count) <==> count >= 3,
    {
        match self {
            ThresholdPolicy::Loose => 2,
            ThresholdPolicy::Strict => 3,
        }
    }
}

impl Default for ThresholdPolicy {
    /// The strict policy is the one in use unless another is configured.
    fn default() -> (policy: ThresholdPolicy)
        ensures
            policy == ThresholdPolicy::Strict,
    {
        ThresholdPolicy::Strict
    }
}

/// The segment that is never a tag, however often it occurs.
pub open spec fn noise_word() -> Seq<char> {
    seq!['j', 'o', 'b']
}

/// The segments of one job name: its pieces between hyphens.
pub open spec fn name_segments(name: Seq<char>) -> Seq<Seq<char>> {
    pieces(name, '-')
}

/// The segments of all the names, one name after another.
pub open spec fn population(names: Seq<Seq<char>>) -> Seq<Seq<char>> {
    names.map_values(|name: Seq<char>| name_segments(name)).flatten()
}

/// How often `segment` occurs among the segments of all the names.
pub open spec fn occurrences(names: Seq<Seq<char>>, segment: Seq<char>) -> nat {
    population(names).to_multiset().count(segment)
}

/// Whether a count is high enough under the policy.
pub open spec fn meets_threshold(policy: ThresholdPolicy, rank: nat, count: nat) -> bool {
    match policy {
        ThresholdPolicy::Loose => count > rank,
        ThresholdPolicy::Strict => rank == 0 || count >= rank,
    }
}

/// Whether `segment` belongs to the vocabulary of the names.
pub open spec fn retained(
    names: Seq<Seq<char>>,
    rank: nat,
    policy: ThresholdPolicy,
    segment: Seq<char>,
) -> bool {
    &&& segment != noise_word()
    &&& occurrences(names, segment) > 0
    &&& meets_threshold(policy, rank, occurrences(names, segment))
}

/// The vocabulary of the names: each retained segment with its count.
pub open spec fn vocabulary(names: Seq<Seq<char>>, rank: nat, policy: ThresholdPolicy) -> Map<
    Seq<char>,
    nat,
> {
    Map::new(
        |segment: Seq<char>| retained(names, rank, policy, segment),
        |segment: Seq<char>| occurrences(names, segment),
    )
}

/// What the vocabulary holds meets the threshold: a retained segment is
/// never the noise word, is held with its count over the names, and that
/// count is above the rank under the loose policy and at least the rank
/// under the strict one, where rank 0 lets every segment through.
pub proof fn lemma_vocabulary_meets_threshold(
    names: Seq<Seq<char>>,
    rank: nat,
    policy: ThresholdPolicy,
    segment: Seq<char>,
)
    requires
        vocabulary(names, rank, policy).contains_key(segment),
    ensures
        segment != noise_word(),
        vocabulary(names, rank, policy)[segment] == occurrences(names, segment),
        occurrences(names, segment) >= 1,
        policy == ThresholdPolicy::Loose ==> occurrences(names, segment) > rank,
        policy == ThresholdPolicy::Strict ==> rank == 0 || occurrences(names, segment) >= rank,
{
}

/// Nothing that meets the threshold is left out: a segment other than the
/// noise word that occurs in the names often enough is in the vocabulary.
pub proof fn lemma_vocabulary_is_complete(
    names: Seq<Seq<char>>,
    rank: nat,
    policy: ThresholdPolicy,
    segment: Seq<char>,
)
    requires
        segment != noise_word(),
        occurrences(names, segment) >= 1,
        meets_threshold(policy, rank, occurrences(names, segment)),
    ensures
        vocabulary(names, rank, policy).contains_key(segment),
{
}

/// Without a threshold the vocabulary is every segment that occurs, but the
/// noise word: so it is under the strict policy with rank 0.
pub proof fn lemma_rank_zero_is_unfiltered(names: Seq<Seq<char>>, segment: Seq<char>)
    ensures
        vocabulary(names, 0, ThresholdPolicy::Strict).contains_key(segment) <==> (segment
            != noise_word() && population(names).contains(segment)),
{
    population(names).to_multiset_ensures();
}

/// The map that pairs each key with the count at the key's position.
spec fn paired(keys: Seq<Seq<char>>, counts: Seq<usize>) -> Map<Seq<char>, nat> {
    Map::new(
        |segment: Seq<char>| keys.contains(segment),
        |segment: Seq<char>| counts[keys.index_of(segment)] as nat,
    )
}

/// The segments of all the names, one name after another.
pub fn collect_segments(names: &Vec<String>) -> (segments: Vec<String>)
    ensures
        segments.deep_view() == population(names.deep_view()),
{
    let mut segments: Vec<String> = Vec::new();
    let mut i: usize = 0;
    assert(names.deep_view().take(0).map_values(|name: Seq<char>| name_segments(name))
        =~= Seq::<Seq<Seq<char>>>::empty());
    while i < names.len()
        invariant
            i <= names.len(),
            segments.deep_view() == population(names.deep_view().take(i as int)),
        decreases names.len() - i,
    {
        let mut parts = split(names[i].as_str(), '-');
        proof {
            let done = names.deep_view().take(i as int);
            let more = names.deep_view().take(i + 1);
            let cut = |name: Seq<char>| name_segments(name);
            assert(more.map_values(cut) =~= done.map_values(cut).push(parts.deep_view()));
            done.map_values(cut).lemma_flatten_push(parts.deep_view());
        }
        let ghost before = segments.deep_view();
        let ghost added = parts.deep_view();
        segments.append(&mut parts);
        assert(segments.deep_view() =~= before + added);
        i = i + 1;
    }
    assert(names.deep_view().take(i as int) =~= names.deep_view());
    segments
}

/// The position of `segment` among `keys`, if it is there.
fn position(keys: &Vec<String>, segment: &str) -> (found: Option<usize>)
    ensures
        match found {
            Some(k) => k < keys.len() && keys.deep_view()[k as int] == segment@,
            None => !keys.deep_view().contains(segment@),
        },
{
    let mut k: usize = 0;
    while k < keys.len()
        invariant
            k <= keys.len(),
            forall|j: int| 0 <= j < k ==> keys.deep_view()[j] != segment@,
        decreases keys.len() - k,
    {
        if same_text(keys[k].as_str(), segment) {
            return Some(k);
        }
        k = k + 1;
    }
    None
}

/// Counts each distinct segment: the distinct segments in order of first
/// occurrence, and beside each how often it occurs.
fn tally(segments: &Vec<String>) -> (counted: (Vec<String>, Vec<usize>))
    ensures
        counted.0.len() == counted.1.len(),
        counted.0.deep_view().no_duplicates(),
        forall|k: int|
            0 <= k < counted.0.len() ==> #[trigger] counted.1[k] == segments.deep_view().to_multiset().count(
                counted.0.deep_view()[k],
            ),
        forall|k: int| 0 <= k < counted.0.len() ==> #[trigger] counted.1[k] >= 1,
        forall|s: Seq<char>| #[trigger]
            segments.deep_view().contains(s) ==> counted.0.deep_view().contains(s),
{
    broadcast use vstd::multiset::group_multiset_axioms;

    let mut keys: Vec<String> = Vec::new();
    let mut counts: Vec<usize> = Vec::new();
    let mut i: usize = 0;
    assert(segments.deep_view().take(0) =~= Seq::<Seq<char>>::empty());
    while i < segments.len()
        invariant
            i <= segments.len(),
            keys.len() == counts.len(),
            keys.deep_view().no_duplicates(),
            forall|k: int|
                0 <= k < keys.len() ==> #[trigger] counts[k] == segments.deep_view().take(
                    i as int,
                ).to_multiset().count(keys.deep_view()[k]),
            forall|k: int| 0 <= k < keys.len() ==> #[trigger] counts[k] >= 1,
            forall|j: int|
                0 <= j < i ==> keys.deep_view().contains(#[trigger] segments.deep_view()[j]),
        decreases segments.len() - i,
    {
        let ghost seen = segments.deep_view().take(i as int);
        let ghost next = segments.deep_view().take(i + 1);
        let ghost word = segments.deep_view()[i as int];
        assert(next =~= seen.push(word));
        proof {
            seen.to_multiset_ensures();
        }
        let ghost old_keys = keys.deep_view();
        match position(&keys, segments[i].as_str()) {
            Some(k) => {
                assert(counts[k as int] <= seen.to_multiset().len());
                counts.set(k, counts[k] + 1);
                assert(keys.deep_view()[k as int] == word);
                assert forall|m: int| 0 <= m < keys.len() implies #[trigger] counts[m]
                    == next.to_multiset().count(keys.deep_view()[m]) by {
                    if m != k {
                        assert(old_keys[m] != old_keys[k as int]);
                    }
                }
            },
            None => {
                assert(seen.to_multiset().count(word) == 0);
                keys.push(segments[i].clone());
                counts.push(1);
                assert(keys.deep_view() =~= old_keys.push(word));
                assert(keys.deep_view()[old_keys.len() as int] == word);
                assert forall|m: int| 0 <= m < keys.len() implies #[trigger] counts[m]
                    == next.to_multiset().count(keys.deep_view()[m]) by {
                    if m < old_keys.len() {
                        assert(old_keys[m] != word);
                    }
                }
                assert forall|j: int| 0 <= j < i implies keys.deep_view().contains(
                    #[trigger] segments.deep_view()[j],
                ) by {
                    let w = segments.deep_view()[j];
                    assert(old_keys.contains(w));
                    let at = choose|at: int| 0 <= at < old_keys.len() && old_keys[at] == w;
                    assert(keys.deep_view()[at] == w);
                }
            },
        }
        assert(keys.deep_view().contains(word));
        i = i + 1;
    }
    assert(segments.deep_view().take(i as int) =~= segments.deep_view());
    assert forall|s: Seq<char>| #[trigger]
        segments.deep_view().contains(s) implies keys.deep_view().contains(s) by {
        let j = choose|j: int| 0 <= j < segments.deep_view().len() && segments.deep_view()[j] == s;
        assert(keys.deep_view().contains(segments.deep_view()[j]));
    }
    (keys, counts)
}

/// Whether a count is high enough under the policy.
fn passes(policy: ThresholdPolicy, rank: u8, count: usize) -> (enough: bool)
    ensures
        enough == meets_threshold(policy, rank as nat, count as nat),
{
    match policy {
        ThresholdPolicy::Loose => count > rank as usize,
        ThresholdPolicy::Strict => rank == 0 || count >= rank as usize,
    }
}

/// Whether `segment` is the word that is never a tag.
fn is_noise(segment: &str) -> (noise: bool)
    ensures
        noise == (segment@ == noise_word()),
{
    proof {
        reveal_strlit("job");
        assert("job"@ =~= noise_word());
    }
    same_text(segment, "job")
}

/// A tag vocabulary: the retained segments of a namespace's job names, each
/// with the number of times it occurs. Its view is the map from segment to
/// count.
#[derive(Debug)]
pub struct TagVocabulary {
    segments: Vec<String>,
    counts: Vec<usize>,
}

impl View for TagVocabulary {
    type V = Map<Seq<char>, nat>;

    closed spec fn view(&self) -> Map<Seq<char>, nat> {
        paired(self.segments.deep_view(), self.counts@)
    }
}

impl TagVocabulary {
    #[verifier::type_invariant]
    spec fn well_formed(&self) -> bool {
        &&& self.segments.len() == self.counts.len()
        &&& self.segments.deep_view().no_duplicates()
    }

    /// The vocabulary of the given job names under the rank and the policy:
    /// every segment but the noise word whose count over all the names meets
    /// the threshold, with that count.
    pub fn build(names: &Vec<String>, rank: u8, policy: ThresholdPolicy) -> (vocab: TagVocabulary)
        ensures
            vocab@ == vocabulary(names.deep_view(), rank as nat, policy),
    {
        let all = collect_segments(names);
        let (keys, counts) = tally(&all);
        let mut kept: Vec<String> = Vec::new();
        let mut kept_counts: Vec<usize> = Vec::new();
        let ghost mut origin: Seq<int> = Seq::empty();
        let mut k: usize = 0;
        while k < keys.len()
            invariant
                k <= keys.len(),
                keys.len() == counts.len(),
                kept.len() == kept_counts.len(),
                kept.len() == origin.len(),
                forall|m: int|
                    0 <= m < origin.len() ==> {
                        let j = #[trigger] origin[m];
                        &&& 0 <= j < k
                        &&& kept.deep_view()[m] == keys.deep_view()[j]
                        &&& kept_counts[m] == counts[j]
                        &&& keys.deep_view()[j] != noise_word()
                        &&& meets_threshold(policy, rank as nat, counts[j] as nat)
                    },
                forall|m: int, n: int| 0 <= m < n < origin.len() ==> origin[m] < origin[n],
                forall|j: int|
                    0 <= j < k && #[trigger] keys.deep_view()[j] != noise_word() && meets_threshold(
                        policy,
                        rank as nat,
                        counts[j] as nat,
                    ) ==> kept.deep_view().contains(keys.deep_view()[j]),
            decreases keys.len() - k,
        {
            let ghost old_kept = kept.deep_view();
            if !is_noise(keys[k].as_str()) && passes(policy, rank, counts[k]) {
                kept.push(keys[k].clone());
                kept_counts.push(counts[k]);
                proof {
                    origin = origin.push(k as int);
                    assert(kept.deep_view() =~= old_kept.push(keys.deep_view()[k as int]));
                    assert(kept.deep_view()[old_kept.len() as int] == keys.deep_view()[k as int]);
                }
            }
            proof {
                assert forall|j: int|
                    0 <= j < k + 1 && #[trigger] keys.deep_view()[j] != noise_word()
                        && meets_threshold(policy, rank as nat, counts[j] as nat) implies kept.deep_view().contains(
                    keys.deep_view()[j],
                ) by {
                    if j < k {
                        let w = keys.deep_view()[j];
                        assert(old_kept.contains(w));
                        let at = choose|at: int| 0 <= at < old_kept.len() && old_kept[at] == w;
                        assert(kept.deep_view()[at] == w);
                    }
                }
            }
            k = k + 1;
        }
        proof {
            let names_view = names.deep_view();
            let all_view = all.deep_view();
            let keys_view = keys.deep_view();
            let kept_view = kept.deep_view();
            all_view.to_multiset_ensures();
            assert forall|m: int, n: int|
                0 <= m < kept_view.len() && 0 <= n < kept_view.len() && m != n implies kept_view[m]
                != kept_view[n] by {
                let a = origin[m];
                let b = origin[n];
                if m < n {
                    assert(a < b);
                } else {
                    assert(b < a);
                }
                assert(keys_view[a] != keys_view[b]);
            }
            let got = paired(kept_view, kept_counts@);
            let want = vocabulary(names_view, rank as nat, policy);
            assert forall|s: Seq<char>| got.dom().contains(s) <==> want.dom().contains(s) by {
                if kept_view.contains(s) {
                    let m = choose|m: int| 0 <= m < kept_view.len() && kept_view[m] == s;
                    let j = origin[m];
                    assert(counts[j] >= 1);
                    assert(counts[j] == all_view.to_multiset().count(keys_view[j]));
                }
                if retained(names_view, rank as nat, policy, s) {
                    assert(all_view.contains(s));
                    assert(keys_view.contains(s));
                    let j = choose|j: int| 0 <= j < keys_view.len() && keys_view[j] == s;
                    assert(counts[j] == all_view.to_multiset().count(keys_view[j]));
                    assert(kept_view.contains(keys_view[j]));
                }
            }
            assert forall|s: Seq<char>| got.dom().contains(s) implies got[s] == want[s] by {
                let m = kept_view.index_of(s);
                let j = origin[m];
                assert(counts[j] == all_view.to_multiset().count(keys_view[j]));
            }
            assert(got =~= want);
        }
        TagVocabulary { segments: kept, counts: kept_counts }
    }

    /// Whether `segment` is in the vocabulary.
    pub fn contains(&self, segment: &str) -> (found: bool)
        ensures
            found == self@.contains_key(segment@),
    {
        position(&self.segments, segment).is_some()
    }

    /// How often `segment` occurs, if it is in the vocabulary.
    pub fn count(&self, segment: &str) -> (count: Option<usize>)
        ensures
            match count {
                Some(n) => self@.contains_key(segment@) && self@[segment@] == n,
                None => !self@.contains_key(segment@),
            },
    {
        proof {
            use_type_invariant(self);
        }
        match position(&self.segments, segment) {
            Some(k) => Some(self.counts[k]),
            None => None,
        }
    }

    /// The number of segments in the vocabulary.
    pub fn len(&self) -> (n: usize)
        ensures
            self@.dom().finite(),
            n == self@.dom().len(),
    {
        proof {
            use_type_invariant(self);
            let keys = self.segments.deep_view();
            keys.unique_seq_to_set();
            assert(self@.dom() =~= keys.to_set());
        }
        self.segments.len()
    }

    /// Whether the vocabulary holds no segment at all.
    pub fn is_empty(&self) -> (empty: bool)
        ensures
            empty == (self@.dom() == Set::<Seq<char>>::empty()),
    {
        proof {
            let keys = self.segments.deep_view();
            if keys.len() > 0 {
                assert(keys.contains(keys[0]));
                assert(self@.dom().contains(keys[0]));
            } else {
                assert(self@.dom() =~= Set::<Seq<char>>::empty());
            }
        }
        self.segments.len() == 0
    }
}

} // verus!

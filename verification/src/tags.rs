//! The tags of one job: the segments of its name that the namespace's
//! vocabulary holds, in the order of the name.

use crate::text::join;
use crate::text::joined;
use crate::text::lemma_pieces_come_from_text;
use crate::text::lemma_pieces_of_joined;
use crate::text::pieces;
use crate::text::split;
use crate::vocabulary::meets_threshold;
use crate::vocabulary::name_segments;
use crate::vocabulary::noise_word;
use crate::vocabulary::occurrences;
use crate::vocabulary::vocabulary;
use crate::vocabulary::TagVocabulary;
use crate::vocabulary::ThresholdPolicy;
use vstd::prelude::*;

verus! {

/// The test "is one of `tagset`".
pub open spec fn member_of(tagset: Set<Seq<char>>) -> spec_fn(Seq<char>) -> bool {
    |segment: Seq<char>| tagset.contains(segment)
}

/// The segments of `name` that are in `tagset`, in the order of the name. A
/// segment that the name repeats is repeated here.
pub open spec fn selected(name: Seq<char>, tagset: Set<Seq<char>>) -> Seq<Seq<char>> {
    name_segments(name).filter(member_of(tagset))
}

/// The tag string of `name`: its selected segments with one space between
/// neighbours.
pub open spec fn tag_text(name: Seq<char>, tagset: Set<Seq<char>>) -> Seq<char> {
    joined(selected(name, tagset), seq![' '])
}

/// The tags of the job called `name`.
pub fn tags_of(name: &str, vocab: &TagVocabulary) -> (tags: Vec<String>)
    ensures
        tags.deep_view() == selected(name@, vocab@.dom()),
{
    let segments = split(name, '-');
    let mut tags: Vec<String> = Vec::new();
    let ghost keep = member_of(vocab@.dom());
    let mut i: usize = 0;
    proof {
        reveal(Seq::filter);
        assert(segments.deep_view().take(0) =~= Seq::<Seq<char>>::empty());
        assert(segments.deep_view().take(0).filter(keep) =~= Seq::<Seq<char>>::empty());
    }
    while i < segments.len()
        invariant
            i <= segments.len(),
            keep == member_of(vocab@.dom()),
            tags.deep_view() == segments.deep_view().take(i as int).filter(keep),
        decreases segments.len() - i,
    {
        let ghost done = segments.deep_view().take(i as int);
        let ghost word = segments.deep_view()[i as int];
        proof {
            assert(segments.deep_view().take(i + 1) =~= done.push(word));
            done.lemma_filter_push(word, keep);
        }
        if vocab.contains(segments[i].as_str()) {
            let ghost before = tags.deep_view();
            tags.push(segments[i].clone());
            assert(tags.deep_view() =~= before.push(word));
        }
        i = i + 1;
    }
    assert(segments.deep_view().take(i as int) =~= segments.deep_view());
    tags
}

/// The tag string of the job called `name`.
pub fn tag_string(name: &str, vocab: &TagVocabulary) -> (tags: String)
    ensures
        tags@ == tag_text(name@, vocab@.dom()),
{
    let chosen = tags_of(name, vocab);
    proof {
        reveal_strlit(" ");
        assert(" "@ =~= seq![' ']);
    }
    join(&chosen, " ")
}

/// The noise word is never a tag: whatever the names of the namespace, the
/// rank and the policy, the tags of a name do not include it.
pub proof fn lemma_noise_word_is_no_tag(
    names: Seq<Seq<char>>,
    rank: nat,
    policy: ThresholdPolicy,
    name: Seq<char>,
)
    ensures
        !vocabulary(names, rank, policy).contains_key(noise_word()),
        !selected(name, vocabulary(names, rank, policy).dom()).contains(noise_word()),
{
    let tagset = vocabulary(names, rank, policy).dom();
    let tags = selected(name, tagset);
    if tags.contains(noise_word()) {
        let i = choose|i: int| 0 <= i < tags.len() && tags[i] == noise_word();
        name_segments(name).lemma_filter_pred(member_of(tagset), i);
        assert(tagset.contains(noise_word()));
    }
}

/// Every tag of a name is frequent enough: its count over the names of the
/// namespace meets the threshold of the policy.
pub proof fn lemma_tags_meet_threshold(
    names: Seq<Seq<char>>,
    rank: nat,
    policy: ThresholdPolicy,
    name: Seq<char>,
    i: int,
)
    requires
        0 <= i < selected(name, vocabulary(names, rank, policy).dom()).len(),
    ensures
        meets_threshold(
            policy,
            rank,
            occurrences(names, selected(name, vocabulary(names, rank, policy).dom())[i]),
        ),
{
    let tagset = vocabulary(names, rank, policy).dom();
    name_segments(name).lemma_filter_pred(member_of(tagset), i);
}

/// The noise word is no word of the tag string: cut at its spaces, the tag
/// string of a name without spaces gives the tags of the name, and so no
/// piece that reads as the noise word.
pub proof fn lemma_tag_string_holds_no_noise_word(
    names: Seq<Seq<char>>,
    rank: nat,
    policy: ThresholdPolicy,
    name: Seq<char>,
)
    requires
        !name.contains(' '),
    ensures
        ({
            let tagset = vocabulary(names, rank, policy).dom();
            &&& selected(name, tagset).len() > 0 ==> pieces(tag_text(name, tagset), ' ')
                == selected(name, tagset)
            &&& !pieces(tag_text(name, tagset), ' ').contains(noise_word())
        }),
{
    let tagset = vocabulary(names, rank, policy).dom();
    let tags = selected(name, tagset);
    let text = tag_text(name, tagset);
    lemma_noise_word_is_no_tag(names, rank, policy, name);
    if tags.len() == 0 {
        assert(text =~= Seq::<char>::empty());
        assert(pieces(text, ' ') =~= seq![Seq::<char>::empty()]);
        if pieces(text, ' ').contains(noise_word()) {
            let i = choose|i: int| 0 <= i < 1 && pieces(text, ' ')[i] == noise_word();
            assert(noise_word().len() == 3);
        }
    } else {
        assert forall|i: int| 0 <= i < tags.len() implies !(#[trigger] tags[i]).contains(' ') by {
            lemma_selected_are_segments(name, tagset, i);
            let j = choose|j: int|
                0 <= j < name_segments(name).len() && name_segments(name)[j] == tags[i];
            if tags[i].contains(' ') {
                lemma_pieces_come_from_text(name, '-', j, ' ');
            }
        }
        lemma_pieces_of_joined(tags, ' ');
    }
}

/// Every tag of a name is one of its segments.
pub proof fn lemma_selected_are_segments(name: Seq<char>, tagset: Set<Seq<char>>, i: int)
    requires
        0 <= i < selected(name, tagset).len(),
    ensures
        name_segments(name).contains(selected(name, tagset)[i]),
{
    let tags = selected(name, tagset);
    assert(tags.contains(tags[i]));
    name_segments(name).lemma_filter_contains_rev(member_of(tagset), tags[i]);
}

} // verus!

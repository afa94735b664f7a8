//! The notification channels of a run as one list: every channel once, in
//! ascending order, with commas between.

use crate::text::join;
use crate::text::joined;
use crate::text::same_text;
use vstd::prelude::*;

verus! {

/// Whether `a` stands before `b` in the order of strings: at the first
/// position where they differ `a` has the character with the lower code
/// point, or `a` ends there and `b` goes on.
pub open spec fn precedes(a: Seq<char>, b: Seq<char>) -> bool
    decreases a.len(),
{
    if b.len() == 0 {
        false
    } else if a.len() == 0 {
        true
    } else if a[0] == b[0] {
        precedes(a.drop_first(), b.drop_first())
    } else {
        (a[0] as int) < (b[0] as int)
    }
}

/// Whether each item stands before all that follow it.
pub open spec fn ascending(items: Seq<Seq<char>>) -> bool {
    forall|i: int, j: int| 0 <= i < j < items.len() ==> precedes(items[i], items[j])
}

/// Whether two sequences hold the same items, however often and in whatever
/// order.
pub open spec fn same_members(a: Seq<Seq<char>>, b: Seq<Seq<char>>) -> bool {
    forall|s: Seq<char>| a.contains(s) <==> b.contains(s)
}

/// The items in ascending order, each once.
pub open spec fn canonical(items: Seq<Seq<char>>) -> Seq<Seq<char>> {
    choose|sorted: Seq<Seq<char>>| ascending(sorted) && same_members(sorted, items)
}

/// The channel list of the given channels.
pub open spec fn channel_text(ids: Seq<Seq<char>>) -> Seq<char> {
    joined(canonical(ids), seq![','])
}

/// Nothing stands before itself.
pub proof fn lemma_precedes_irreflexive(a: Seq<char>)
    ensures
        !precedes(a, a),
    decreases a.len(),
{
    if a.len() > 0 {
        lemma_precedes_irreflexive(a.drop_first());
    }
}

/// What stands before something that stands before a third stands before
/// the third.
pub proof fn lemma_precedes_transitive(a: Seq<char>, b: Seq<char>, c: Seq<char>)
    requires
        precedes(a, b),
        precedes(b, c),
    ensures
        precedes(a, c),
    decreases a.len(),
{
    if a.len() > 0 && a[0] == b[0] && b[0] == c[0] {
        lemma_precedes_transitive(a.drop_first(), b.drop_first(), c.drop_first());
    }
}

/// Of two different strings one stands before the other.
pub proof fn lemma_precedes_total(a: Seq<char>, b: Seq<char>)
    requires
        a != b,
    ensures
        precedes(a, b) || precedes(b, a),
    decreases a.len(),
{
    if a.len() == 0 {
        if b.len() == 0 {
            assert(a =~= b);
        }
    } else if b.len() > 0 {
        if a[0] == b[0] {
            if a.drop_first() == b.drop_first() {
                assert(a =~= seq![a[0]] + a.drop_first());
                assert(b =~= seq![b[0]] + b.drop_first());
            }
            lemma_precedes_total(a.drop_first(), b.drop_first());
        } else {
            assert(a[0] as int != b[0] as int);
        }
    }
}

/// There is one way only to put given items in ascending order.
pub proof fn lemma_ascending_is_unique(a: Seq<Seq<char>>, b: Seq<Seq<char>>)
    requires
        ascending(a),
        ascending(b),
        same_members(a, b),
    ensures
        a == b,
    decreases a.len(),
{
    if a.len() == 0 {
        if b.len() > 0 {
            assert(b.contains(b[0]));
            assert(a.contains(b[0]));
        }
        assert(a =~= b);
    } else {
        assert(a.contains(a.last()));
        assert(b.contains(a.last()));
        let j = choose|j: int| 0 <= j < b.len() && b[j] == a.last();
        assert(b.contains(b.last()));
        assert(a.contains(b.last()));
        let i = choose|i: int| 0 <= i < a.len() && a[i] == b.last();
        if a.last() != b.last() {
            assert(precedes(a[i], a.last()));
            assert(precedes(b[j], b.last()));
            lemma_precedes_transitive(a.last(), b.last(), a.last());
            lemma_precedes_irreflexive(a.last());
        }
        let a0 = a.drop_last();
        let b0 = b.drop_last();
        assert forall|s: Seq<char>| a0.contains(s) <==> b0.contains(s) by {
            if a0.contains(s) {
                let k = choose|k: int| 0 <= k < a0.len() && a0[k] == s;
                assert(precedes(a[k], a.last()));
                assert(a.contains(a[k]));
                assert(b.contains(s));
                let m = choose|m: int| 0 <= m < b.len() && b[m] == s;
                if m == b.len() - 1 {
                    lemma_precedes_irreflexive(s);
                }
                assert(b0[m] == s);
            }
            if b0.contains(s) {
                let k = choose|k: int| 0 <= k < b0.len() && b0[k] == s;
                assert(precedes(b[k], b.last()));
                assert(b.contains(b[k]));
                assert(a.contains(s));
                let m = choose|m: int| 0 <= m < a.len() && a[m] == s;
                if m == a.len() - 1 {
                    lemma_precedes_irreflexive(s);
                }
                assert(a0[m] == s);
            }
        }
        assert forall|i: int, j: int| 0 <= i < j < a0.len() implies precedes(a0[i], a0[j]) by {
            assert(precedes(a[i], a[j]));
        }
        assert forall|i: int, j: int| 0 <= i < j < b0.len() implies precedes(b0[i], b0[j]) by {
            assert(precedes(b[i], b[j]));
        }
        lemma_ascending_is_unique(a0, b0);
        assert(a =~= a0.push(a.last()));
        assert(b =~= b0.push(b.last()));
    }
}

/// `<` on `str`: strings are ordered character by character by code point,
/// and a string stands before every longer one that begins with it. This is
/// the order that the standard library documents for strings. Nothing here
/// is proved.
#[verifier::external_body]
fn comes_before(a: &str, b: &str) -> (before: bool)
    ensures
        before == precedes(a@, b@),
{
    a < b
}

/// The items in ascending order, each once.
pub fn sorted_distinct(items: &Vec<String>) -> (sorted: Vec<String>)
    ensures
        ascending(sorted.deep_view()),
        same_members(sorted.deep_view(), items.deep_view()),
        sorted.deep_view() == canonical(items.deep_view()),
{
    let mut sorted: Vec<String> = Vec::new();
    let mut k: usize = 0;
    assert(items.deep_view().take(0) =~= Seq::<Seq<char>>::empty());
    while k < items.len()
        invariant
            k <= items.len(),
            ascending(sorted.deep_view()),
            same_members(sorted.deep_view(), items.deep_view().take(k as int)),
        decreases items.len() - k,
    {
        let ghost seen = items.deep_view().take(k as int);
        let ghost word = items.deep_view()[k as int];
        let ghost before = sorted.deep_view();
        assert(items.deep_view().take(k + 1) =~= seen.push(word));
        let mut p: usize = 0;
        while p < sorted.len() && comes_before(sorted[p].as_str(), items[k].as_str())
            invariant
                p <= sorted.len(),
                k < items.len(),
                word == items.deep_view()[k as int],
                before == sorted.deep_view(),
                forall|j: int| 0 <= j < p ==> precedes(#[trigger] before[j], word),
            decreases sorted.len() - p,
        {
            p = p + 1;
        }
        if p < sorted.len() && same_text(sorted[p].as_str(), items[k].as_str()) {
            assert(before[p as int] == word);
            assert forall|s: Seq<char>| before.contains(s) <==> seen.push(word).contains(s) by {
                if seen.push(word).contains(s) {
                    let m = choose|m: int| 0 <= m < seen.len() + 1 && seen.push(word)[m] == s;
                    if m < seen.len() {
                        assert(seen.contains(s));
                    }
                }
                if before.contains(s) {
                    assert(seen.contains(s));
                    let m = choose|m: int| 0 <= m < seen.len() && seen[m] == s;
                    assert(seen.push(word)[m] == s);
                }
            }
        } else {
            sorted.insert(p, items[k].clone());
            proof {
                let after = sorted.deep_view();
                assert(after =~= before.insert(p as int, word));
                assert forall|i: int, j: int| 0 <= i < j < after.len() implies precedes(
                    after[i],
                    after[j],
                ) by {
                    if j == p {
                        assert(after[i] == before[i]);
                    } else if i == p {
                        assert(after[j] == before[j - 1]);
                        lemma_precedes_total(before[p as int], word);
                        if j - 1 > p {
                            assert(precedes(before[p as int], before[j - 1]));
                            lemma_precedes_transitive(word, before[p as int], before[j - 1]);
                        }
                    } else {
                        let i0 = if i < p { i } else { i - 1 };
                        let j0 = if j < p { j } else { j - 1 };
                        assert(after[i] == before[i0]);
                        assert(after[j] == before[j0]);
                        assert(precedes(before[i0], before[j0]));
                    }
                }
                assert forall|s: Seq<char>| after.contains(s) <==> seen.push(word).contains(
                    s,
                ) by {
                    if after.contains(s) {
                        let m = choose|m: int| 0 <= m < after.len() && after[m] == s;
                        if m == p {
                            assert(seen.push(word)[seen.len() as int] == s);
                        } else {
                            let m0 = if m < p { m } else { m - 1 };
                            assert(before[m0] == s);
                            assert(before.contains(s));
                            assert(seen.contains(s));
                            let n = choose|n: int| 0 <= n < seen.len() && seen[n] == s;
                            assert(seen.push(word)[n] == s);
                        }
                    }
                    if seen.push(word).contains(s) {
                        let m = choose|m: int| 0 <= m < seen.len() + 1 && seen.push(word)[m] == s;
                        if m < seen.len() {
                            assert(seen.contains(s));
                            assert(before.contains(s));
                            let n = choose|n: int| 0 <= n < before.len() && before[n] == s;
                            let n1 = if n < p { n } else { n + 1 };
                            assert(after[n1] == s);
                        } else {
                            assert(after[p as int] == s);
                        }
                    }
                }
            }
        }
        k = k + 1;
    }
    proof {
        assert(items.deep_view().take(k as int) =~= items.deep_view());
        let chosen = canonical(items.deep_view());
        assert(ascending(chosen) && same_members(chosen, items.deep_view()));
        lemma_ascending_is_unique(sorted.deep_view(), chosen);
    }
    sorted
}

/// The channel list: every one of the given channels once, in ascending
/// order, with a comma between neighbours.
pub fn channel_list(ids: &Vec<String>) -> (list: String)
    ensures
        list@ == channel_text(ids.deep_view()),
{
    let sorted = sorted_distinct(ids);
    proof {
        reveal_strlit(",");
        assert(","@ =~= seq![',']);
    }
    join(&sorted, ",")
}

} // verus!

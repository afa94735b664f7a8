//! Targets of a run: a cluster context with the namespaces to visit in it,
//! written as `context` or `context:namespace,namespace,...`.

use crate::text::pieces;
use crate::text::split;
use vstd::prelude::*;
use vstd::string::StrSliceExecFns;

verus! {

/// A cluster context and the namespaces to visit in it, in order.
#[derive(Clone, Debug, PartialEq, Eq)]
pub struct Target {
    pub context: String,
    pub namespaces: Vec<String>,
}

/// The namespace that is visited when a target names none.
pub open spec fn default_namespace() -> Seq<char> {
    seq!['d', 'e', 'f', 'a', 'u', 'l', 't']
}

/// The context of a target: what stands before its first colon, or all of it
/// where it has no colon.
pub open spec fn context_of(target: Seq<char>) -> Seq<char> {
    match target.index_of_first(':') {
        Some(i) => target.take(i),
        None => target,
    }
}

/// The namespaces of a target: the pieces between commas of what follows its
/// first colon, or the default namespace alone where it has no colon.
pub open spec fn namespaces_of(target: Seq<char>) -> Seq<Seq<char>> {
    match target.index_of_first(':') {
        Some(i) => pieces(target.skip(i + 1), ','),
        None => seq![default_namespace()],
    }
}

/// The position of the first colon of `text`, counted in characters.
fn first_colon(text: &str) -> (found: Option<usize>)
    ensures
        match found {
            Some(i) => text@.index_of_first(':') == Some(i as int),
            None => text@.index_of_first(':') is None,
        },
{
    let total = text.unicode_len();
    let mut found: Option<usize> = None;
    let mut pos: usize = 0;
    for c in it: text.chars()
        invariant
            it.seq() == text@,
            total == text@.len(),
            pos == it.index(),
            pos <= total,
            match found {
                Some(i) => i < pos && text@[i as int] == ':' && forall|j: int|
                    0 <= j < i ==> text@[j] != ':',
                None => forall|j: int| 0 <= j < pos ==> text@[j] != ':',
            },
    {
        if found.is_none() && c == ':' {
            found = Some(pos);
        }
        pos = pos + 1;
    }
    proof {
        text@.index_of_first_ensures(':');
        match found {
            Some(i) => {
                assert(text@.contains(':'));
            },
            None => {
                if text@.contains(':') {
                    let j = choose|j: int| 0 <= j < text@.len() && text@[j] == ':';
                    assert(text@[j] != ':');
                }
            },
        }
    }
    found
}

/// Reads a target. Without a colon the whole text is the context and the
/// default namespace is visited.
pub fn parse_target(target: &str) -> (parsed: Target)
    ensures
        parsed.context@ == context_of(target@),
        parsed.namespaces.deep_view() == namespaces_of(target@),
{
    match first_colon(target) {
        Some(i) => {
            let total = target.unicode_len();
            proof {
                target@.index_of_first_ensures(':');
            }
            let context = target.substring_char(0, i).to_owned();
            let rest = target.substring_char(i + 1, total);
            Target { context, namespaces: split(rest, ',') }
        },
        None => {
            let mut namespaces: Vec<String> = Vec::new();
            proof {
                reveal_strlit("default");
                assert("default"@ =~= default_namespace());
            }
            namespaces.push("default".to_owned());
            assert(namespaces.deep_view() =~= seq![default_namespace()]);
            Target { context: target.to_owned(), namespaces }
        },
    }
}

} // verus!

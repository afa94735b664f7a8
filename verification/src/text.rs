//! Cutting text into pieces at a delimiter and joining pieces back together.

use vstd::prelude::*;
use vstd::string::StrSliceExecFns;
use vstd::string::StringExecFns;

verus! {

/// The pieces of `s` that lie between the occurrences of `delim`, in order.
/// Text without the delimiter is a single piece; two delimiters in a row, or
/// one at either end, give an empty piece.
pub open spec fn pieces(s: Seq<char>, delim: char) -> Seq<Seq<char>>
    decreases s.len(),
{
    if s.len() == 0 {
        seq![Seq::<char>::empty()]
    } else {
        let before = pieces(s.drop_last(), delim);
        if s.last() == delim {
            before.push(Seq::<char>::empty())
        } else {
            before.drop_last().push(before.last().push(s.last()))
        }
    }
}

/// The parts written one after another with `sep` between neighbours.
pub open spec fn joined(parts: Seq<Seq<char>>, sep: Seq<char>) -> Seq<char>
    decreases parts.len(),
{
    if parts.len() == 0 {
        Seq::<char>::empty()
    } else if parts.len() == 1 {
        parts[0]
    } else {
        joined(parts.drop_last(), sep) + sep + parts.last()
    }
}

/// There is always at least one piece.
pub proof fn lemma_pieces_nonempty(s: Seq<char>, delim: char)
    ensures
        pieces(s, delim).len() >= 1,
    decreases s.len(),
{
    if s.len() > 0 {
        lemma_pieces_nonempty(s.drop_last(), delim);
    }
}

/// No piece holds the delimiter.
pub proof fn lemma_pieces_hold_no_delimiter(s: Seq<char>, delim: char, i: int)
    requires
        0 <= i < pieces(s, delim).len(),
    ensures
        !pieces(s, delim)[i].contains(delim),
    decreases s.len(),
{
    let piece = pieces(s, delim)[i];
    if s.len() > 0 {
        let before = pieces(s.drop_last(), delim);
        lemma_pieces_nonempty(s.drop_last(), delim);
        if i < before.len() - 1 || (s.last() == delim && i == before.len() - 1) {
            lemma_pieces_hold_no_delimiter(s.drop_last(), delim, i);
        } else if s.last() != delim {
            lemma_pieces_hold_no_delimiter(s.drop_last(), delim, before.len() - 1);
            if piece.contains(delim) {
                let k = choose|k: int| 0 <= k < piece.len() && piece[k] == delim;
                assert(before.last()[k] == delim);
            }
        }
    }
}

/// Joining undoes splitting: the pieces of a text, written one after another
/// with the delimiter between neighbours, are the text.
pub proof fn lemma_joined_pieces(s: Seq<char>, delim: char)
    ensures
        joined(pieces(s, delim), seq![delim]) == s,
    decreases s.len(),
{
    let sep = seq![delim];
    if s.len() == 0 {
        assert(joined(pieces(s, delim), sep) =~= s);
    } else {
        let before = pieces(s.drop_last(), delim);
        lemma_pieces_nonempty(s.drop_last(), delim);
        lemma_joined_pieces(s.drop_last(), delim);
        let now = pieces(s, delim);
        if s.last() == delim {
            assert(now.drop_last() =~= before);
            assert(joined(now, sep) =~= s.drop_last() + sep + Seq::<char>::empty());
            assert(s =~= s.drop_last() + sep);
        } else {
            let grown = before.last().push(s.last());
            assert(now.last() == grown);
            if before.len() == 1 {
                assert(now.len() == 1);
                assert(now[0] == grown);
                assert(before.last() == s.drop_last());
            } else {
                assert(now.drop_last() =~= before.drop_last());
                assert(joined(now, sep) =~= joined(before.drop_last(), sep) + sep + grown);
                assert(joined(before.drop_last(), sep) + sep + grown =~= (joined(
                    before.drop_last(),
                    sep,
                ) + sep + before.last()).push(s.last()));
            }
            assert(s =~= s.drop_last().push(s.last()));
        }
    }
}

/// Every character of a piece is a character of the text.
pub proof fn lemma_pieces_come_from_text(s: Seq<char>, delim: char, i: int, c: char)
    requires
        0 <= i < pieces(s, delim).len(),
        pieces(s, delim)[i].contains(c),
    ensures
        s.contains(c),
    decreases s.len(),
{
    let piece = pieces(s, delim)[i];
    let k = choose|k: int| 0 <= k < piece.len() && piece[k] == c;
    if s.len() > 0 {
        let shorter = s.drop_last();
        let before = pieces(shorter, delim);
        lemma_pieces_nonempty(shorter, delim);
        if i < before.len() - 1 || (s.last() == delim && i == before.len() - 1) {
            assert(before[i][k] == c);
            lemma_pieces_come_from_text(shorter, delim, i, c);
        } else if s.last() != delim {
            if k < before.last().len() {
                assert(before.last()[k] == c);
                lemma_pieces_come_from_text(shorter, delim, before.len() - 1, c);
            } else {
                assert(s[s.len() - 1] == c);
            }
        }
        if shorter.contains(c) {
            let m = choose|m: int| 0 <= m < shorter.len() && shorter[m] == c;
            assert(s[m] == c);
        }
    }
}

/// Text without the delimiter, written behind other text, lengthens the
/// last piece and leaves the pieces before it as they were.
pub proof fn lemma_pieces_of_longer_text(s: Seq<char>, tail: Seq<char>, delim: char)
    requires
        !tail.contains(delim),
    ensures
        pieces(s, delim).len() >= 1,
        pieces(s + tail, delim) == pieces(s, delim).drop_last().push(
            pieces(s, delim).last() + tail,
        ),
    decreases tail.len(),
{
    lemma_pieces_nonempty(s, delim);
    let before = pieces(s, delim);
    if tail.len() == 0 {
        assert(s + tail =~= s);
        assert(before.last() + tail =~= before.last());
        assert(before.drop_last().push(before.last()) =~= before);
    } else {
        let shorter = tail.drop_last();
        assert(tail[tail.len() - 1] == tail.last());
        assert(tail.last() != delim);
        assert forall|k: int| 0 <= k < shorter.len() implies shorter[k] != delim by {
            assert(tail[k] == shorter[k]);
        }
        lemma_pieces_of_longer_text(s, shorter, delim);
        assert((s + tail).drop_last() =~= s + shorter);
        assert((s + tail).last() == tail.last());
        let grown = before.drop_last().push(before.last() + shorter);
        assert(grown.drop_last() =~= before.drop_last());
        assert((before.last() + shorter).push(tail.last()) =~= before.last() + tail);
    }
}

/// Splitting undoes joining: parts that do not hold the delimiter, written
/// one after another with the delimiter between neighbours, split into
/// those parts again. So the pieces of a text are the one way to cut it
/// into parts without the delimiter that join to the text.
pub proof fn lemma_pieces_of_joined(parts: Seq<Seq<char>>, delim: char)
    requires
        parts.len() >= 1,
        forall|i: int| 0 <= i < parts.len() ==> !(#[trigger] parts[i]).contains(delim),
    ensures
        pieces(joined(parts, seq![delim]), delim) == parts,
    decreases parts.len(),
{
    let sep = seq![delim];
    let empty = Seq::<char>::empty();
    if parts.len() == 1 {
        lemma_pieces_of_longer_text(empty, parts[0], delim);
        assert(empty + parts[0] =~= parts[0]);
        assert(pieces(empty, delim) =~= seq![empty]);
        assert(pieces(parts[0], delim) =~= parts);
    } else {
        let front = parts.drop_last();
        assert forall|i: int| 0 <= i < front.len() implies !(#[trigger] front[i]).contains(
            delim,
        ) by {
            assert(front[i] == parts[i]);
        }
        lemma_pieces_of_joined(front, delim);
        let text = joined(front, sep);
        let cut = text + sep;
        assert(cut.drop_last() =~= text);
        assert(cut.last() == delim);
        assert(pieces(cut, delim) == front.push(empty));
        lemma_pieces_of_longer_text(cut, parts.last(), delim);
        assert(front.push(empty).drop_last() =~= front);
        assert(empty + parts.last() =~= parts.last());
        assert(front.push(parts.last()) =~= parts);
    }
}

/// `==` on `str`: two string slices are equal exactly when they hold the same
/// characters in the same order. Nothing here is proved; the claim is the one
/// the standard library documents for string equality.
#[verifier::external_body]
pub(crate) fn same_text(a: &str, b: &str) -> (same: bool)
    ensures
        same == (a@ == b@),
{
    a == b
}

/// Splits `text` at every occurrence of `delim`.
pub fn split(text: &str, delim: char) -> (parts: Vec<String>)
    ensures
        parts.deep_view() == pieces(text@, delim),
{
    let total = text.unicode_len();
    let mut parts: Vec<String> = Vec::new();
    let mut start: usize = 0;
    let mut pos: usize = 0;
    assert(text@.take(0) =~= Seq::<char>::empty());
    assert(text@.subrange(0, 0) =~= Seq::<char>::empty());
    assert(parts.deep_view().push(text@.subrange(0, 0)) =~= pieces(text@.take(0), delim));
    for c in it: text.chars()
        invariant
            it.seq() == text@,
            total == text@.len(),
            pos == it.index(),
            start <= pos <= total,
            parts.deep_view().push(text@.subrange(start as int, pos as int)) == pieces(
                text@.take(pos as int),
                delim,
            ),
    {
        let ghost prefix = text@.take(pos as int);
        let ghost longer = text@.take(pos + 1);
        assert(longer.drop_last() =~= prefix);
        assert(longer.last() == c);
        if c == delim {
            let piece = text.substring_char(start, pos).to_owned();
            let ghost before = parts.deep_view();
            parts.push(piece);
            assert(parts.deep_view() =~= before.push(piece@));
            start = pos + 1;
            assert(text@.subrange(start as int, pos + 1) =~= Seq::<char>::empty());
        } else {
            let ghost current = text@.subrange(start as int, pos as int);
            assert(text@.subrange(start as int, pos + 1) =~= current.push(c));
            assert(parts.deep_view().push(current).drop_last() =~= parts.deep_view());
        }
        pos = pos + 1;
    }
    assert(text@.take(pos as int) =~= text@);
    let piece = text.substring_char(start, pos).to_owned();
    let ghost before = parts.deep_view();
    parts.push(piece);
    assert(parts.deep_view() =~= before.push(piece@));
    parts
}

/// Writes `parts` one after another with `sep` between neighbours.
pub fn join(parts: &Vec<String>, sep: &str) -> (text: String)
    ensures
        text@ == joined(parts.deep_view(), sep@),
{
    let mut text = String::new();
    let mut i: usize = 0;
    while i < parts.len()
        invariant
            i <= parts.len(),
            text@ == joined(parts.deep_view().take(i as int), sep@),
        decreases parts.len() - i,
    {
        let ghost done = parts.deep_view().take(i as int);
        let ghost more = parts.deep_view().take(i + 1);
        assert(more.drop_last() =~= done);
        assert(more.last() == parts[i as int]@);
        if i > 0 {
            text.append(sep);
        } else {
            assert(text@ + parts[i as int]@ =~= parts[i as int]@);
        }
        text.append(parts[i].as_str());
        i = i + 1;
    }
    assert(parts.deep_view().take(i as int) =~= parts.deep_view());
    text
}

} // verus!

//! Dotted paths: `root.cli.name` names the segments `root`, `cli`, `name`.
//!
//! A dot always separates: a text with `n` dots has `n + 1` segments, some of
//! which may be empty. A path is usable for addressing only when none is.

use vstd::prelude::*;

verus! {

/// A segment is a non-empty text without a dot.
pub open spec fn is_segment(s: Seq<char>) -> bool {
    s.len() > 0 && !s.contains('.')
}

/// Every element is a segment.
pub open spec fn all_segments(segments: Seq<Seq<char>>) -> bool {
    forall|i: int| 0 <= i < segments.len() ==> is_segment(#[trigger] segments[i])
}

/// The pieces of `s` between its dots, in order. Read from the left, one
/// character at a time: a dot opens a new, empty piece, any other character
/// goes to the end of the piece that is open.
pub open spec fn split_dotted(s: Seq<char>) -> Seq<Seq<char>>
    decreases s.len(),
{
    if s.len() == 0 {
        seq![Seq::<char>::empty()]
    } else {
        let before = split_dotted(s.drop_last());
        if s.last() == '.' {
            before.push(Seq::<char>::empty())
        } else {
            before.drop_last().push(before.last().push(s.last()))
        }
    }
}

/// The pieces written one after the other with a dot between neighbours.
pub open spec fn join_dotted(segments: Seq<Seq<char>>) -> Seq<char>
    decreases segments.len(),
{
    if segments.len() == 0 {
        Seq::<char>::empty()
    } else if segments.len() == 1 {
        segments[0]
    } else {
        join_dotted(segments.drop_last()) + seq!['.'] + segments.last()
    }
}

/// How many dots `s` holds.
pub open spec fn dots(s: Seq<char>) -> nat
    decreases s.len(),
{
    if s.len() == 0 {
        0
    } else if s.last() == '.' {
        dots(s.drop_last()) + 1
    } else {
        dots(s.drop_last())
    }
}

/// A dotted path that can address something: each of its pieces is a segment.
pub open spec fn is_dotted_path(s: Seq<char>) -> bool {
    all_segments(split_dotted(s))
}

/// The texts of a list of strings.
pub open spec fn texts(strings: Seq<String>) -> Seq<Seq<char>> {
    strings.map_values(|s: String| s@)
}

/// Splitting always yields at least one piece.
pub proof fn lemma_split_len(s: Seq<char>)
    ensures
        split_dotted(s).len() >= 1,
{
    law_split_counts_dots(s);
}

/// A dot always separates: a text has one piece more than it has dots.
pub proof fn law_split_counts_dots(s: Seq<char>)
    ensures
        split_dotted(s).len() == dots(s) + 1,
    decreases s.len(),
{
    if s.len() > 0 {
        law_split_counts_dots(s.drop_last());
    }
}

/// No piece of a split holds a dot.
pub proof fn law_split_pieces_have_no_dot(s: Seq<char>)
    ensures
        forall|i: int|
            0 <= i < split_dotted(s).len() ==> !(#[trigger] split_dotted(s)[i]).contains('.'),
    decreases s.len(),
{
    if s.len() > 0 {
        let before = split_dotted(s.drop_last());
        lemma_split_len(s.drop_last());
        law_split_pieces_have_no_dot(s.drop_last());
        if s.last() != '.' {
            let grown = before.last().push(s.last());
            assert(!before.last().contains('.'));
            assert forall|k: int| 0 <= k < grown.len() implies grown[k] != '.' by {
                if k < before.last().len() {
                    assert(before.last()[k] == grown[k]);
                }
            }
        }
    }
}

/// Joining the pieces of a split gives the text back.
pub proof fn law_join_of_split(s: Seq<char>)
    ensures
        join_dotted(split_dotted(s)) == s,
    decreases s.len(),
{
    if s.len() == 0 {
        assert(join_dotted(split_dotted(s)) =~= s);
    } else {
        let t = s.drop_last();
        let before = split_dotted(t);
        lemma_split_len(t);
        law_join_of_split(t);
        if s.last() == '.' {
            let after = before.push(Seq::<char>::empty());
            assert(after.drop_last() =~= before);
            assert(join_dotted(after) =~= t + seq!['.']);
            assert(t + seq!['.'] =~= s);
        } else {
            let grown = before.last().push(s.last());
            let after = before.drop_last().push(grown);
            if before.len() == 1 {
                assert(join_dotted(after) =~= t.push(s.last()));
            } else {
                assert(after.drop_last() =~= before.drop_last());
                assert(join_dotted(after) =~= join_dotted(before).push(s.last()));
            }
            assert(t.push(s.last()) =~= s);
        }
    }
}

/// Text without a dot, added at the end, lengthens the last piece and changes
/// nothing else.
pub proof fn lemma_split_of_extension(s: Seq<char>, tail: Seq<char>)
    requires
        !tail.contains('.'),
    ensures
        split_dotted(s).len() >= 1,
        split_dotted(s + tail) == split_dotted(s).drop_last().push(split_dotted(s).last() + tail),
    decreases tail.len(),
{
    lemma_split_len(s);
    let pieces = split_dotted(s);
    if tail.len() == 0 {
        assert(s + tail =~= s);
        assert(pieces.last() + tail =~= pieces.last());
        assert(pieces.drop_last().push(pieces.last()) =~= pieces);
    } else {
        let shorter = tail.drop_last();
        assert forall|k: int| 0 <= k < shorter.len() implies shorter[k] != '.' by {
            assert(tail[k] == shorter[k]);
        }
        lemma_split_of_extension(s, shorter);
        assert((s + tail).drop_last() =~= s + shorter);
        assert((s + tail).last() == tail.last());
        assert(tail[tail.len() - 1] != '.');
        let before = pieces.drop_last().push(pieces.last() + shorter);
        assert(before.drop_last() =~= pieces.drop_last());
        assert((pieces.last() + shorter).push(tail.last()) =~= pieces.last() + tail);
    }
}

/// A segment appended behind a dot becomes one more piece.
pub proof fn lemma_split_of_appended_segment(s: Seq<char>, segment: Seq<char>)
    requires
        !segment.contains('.'),
    ensures
        split_dotted(s + seq!['.'] + segment) == split_dotted(s).push(segment),
{
    let dotted = s + seq!['.'];
    assert(dotted.drop_last() =~= s);
    assert(dotted.last() == '.');
    lemma_split_of_extension(dotted, segment);
    let pieces = split_dotted(s).push(Seq::<char>::empty());
    assert(pieces.drop_last() =~= split_dotted(s));
    assert(Seq::<char>::empty() + segment =~= segment);
}

/// Splitting a join of dot-free pieces gives the pieces back: together with
/// [`law_join_of_split`], the split of a text is the one list of dot-free
/// pieces whose join is that text.
pub proof fn law_split_of_join(segments: Seq<Seq<char>>)
    requires
        segments.len() >= 1,
        forall|i: int| 0 <= i < segments.len() ==> !(#[trigger] segments[i]).contains('.'),
    ensures
        split_dotted(join_dotted(segments)) == segments,
    decreases segments.len(),
{
    if segments.len() == 1 {
        let empty = Seq::<char>::empty();
        lemma_split_of_extension(empty, segments[0]);
        assert(empty + segments[0] =~= segments[0]);
        assert(split_dotted(empty).drop_last().push(empty + segments[0]) =~= segments);
    } else {
        let front = segments.drop_last();
        assert forall|i: int| 0 <= i < front.len() implies !(#[trigger] front[i]).contains('.') by {
            assert(front[i] == segments[i]);
        }
        law_split_of_join(front);
        lemma_split_of_appended_segment(join_dotted(front), segments.last());
        assert(front.push(segments.last()) =~= segments);
    }
}

/// Whether `s` is a segment: not empty, and without a dot.
pub fn is_valid_segment(s: &str) -> (r: bool)
    ensures
        r == is_segment(s@),
{
    if s.is_empty() {
        return false;
    }
    for c in it: s.chars()
        invariant
            it.seq() == s@,
            forall|k: int| 0 <= k < it.index() ==> s@[k] != '.',
    {
        if c == '.' {
            assert(s@[it.index() as int] == '.');
            return false;
        }
    }
    true
}

/// Cuts a dotted path at its dots.
pub fn split_path(path: &str) -> (segments: Vec<String>)
    ensures
        texts(segments@) == split_dotted(path@),
{
    let len = path.unicode_len();
    let mut segments: Vec<String> = Vec::new();
    let mut start: usize = 0;
    let mut i: usize = 0;
    assert(path@.take(0) =~= Seq::<char>::empty());
    assert(texts(segments@).push(path@.subrange(0, 0)) =~= seq![Seq::<char>::empty()]);
    for c in it: path.chars()
        invariant
            it.seq() == path@,
            i == it.index(),
            len == path@.len(),
            start <= i <= len,
            split_dotted(path@.take(i as int)) == texts(segments@).push(
                path@.subrange(start as int, i as int),
            ),
    {
        let ghost before = split_dotted(path@.take(i as int));
        let ghost done = texts(segments@);
        proof {
            assert(path@.take(i + 1).drop_last() =~= path@.take(i as int));
            assert(path@.take(i + 1).last() == c);
            assert(before.drop_last() =~= done);
        }
        if c == '.' {
            let piece = path.substring_char(start, i).to_owned();
            segments.push(piece);
            start = i + 1;
            proof {
                assert(texts(segments@) =~= before);
                assert(path@.subrange(start as int, i + 1) =~= Seq::<char>::empty());
            }
        } else {
            proof {
                assert(path@.subrange(start as int, i as int).push(c) =~= path@.subrange(
                    start as int,
                    i + 1,
                ));
            }
        }
        i = i + 1;
    }
    let piece = path.substring_char(start, len).to_owned();
    proof {
        assert(path@.take(len as int) =~= path@);
        assert(texts(segments@.push(piece)) =~= texts(segments@).push(piece@));
    }
    segments.push(piece);
    segments
}

/// Whether every string of `segments` is a segment.
pub fn are_valid_segments(segments: &Vec<String>) -> (r: bool)
    ensures
        r == all_segments(texts(segments@)),
{
    let mut i: usize = 0;
    while i < segments.len()
        invariant
            i <= segments.len(),
            forall|k: int| 0 <= k < i ==> is_segment(#[trigger] texts(segments@)[k]),
        decreases segments.len() - i,
    {
        if !is_valid_segment(segments[i].as_str()) {
            assert(!is_segment(texts(segments@)[i as int]));
            return false;
        }
        i = i + 1;
    }
    true
}

} // verus!

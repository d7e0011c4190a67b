use vstd::prelude::*;
use vstd::string::StrSliceExecFns;

verus! {

/// The character that separates the names of a path.
pub const SEPARATOR: char = '.';

/// The pieces of `s` between occurrences of `sep`, in order. There is always at
/// least one piece; a separator at either end, or two in a row, delimit an empty one.
pub open spec fn split(s: Seq<char>, sep: char) -> Seq<Seq<char>>
    decreases s.len(),
{
    if s.len() == 0 {
        seq![Seq::<char>::empty()]
    } else {
        let before = split(s.drop_last(), sep);
        if s.last() == sep {
            before.push(Seq::<char>::empty())
        } else {
            before.drop_last().push(before.last().push(s.last()))
        }
    }
}

/// The pieces of `parts` written one after another with `sep` between neighbours.
pub open spec fn join(parts: Seq<Seq<char>>, sep: char) -> Seq<char>
    decreases parts.len(),
{
    if parts.len() == 0 {
        Seq::<char>::empty()
    } else if parts.len() == 1 {
        parts[0]
    } else {
        join(parts.drop_last(), sep).push(sep) + parts.last()
    }
}

/// The character sequences that a list of strings stands for.
pub open spec fn views(v: Seq<String>) -> Seq<Seq<char>> {
    Seq::new(v.len(), |i: int| v[i]@)
}

/// Splitting never yields an empty list of pieces.
pub proof fn lemma_split_nonempty(s: Seq<char>, sep: char)
    ensures
        split(s, sep).len() >= 1,
    decreases s.len(),
{
    if s.len() > 0 {
        lemma_split_nonempty(s.drop_last(), sep);
    }
}

/// Text without a separator that follows `a` only lengthens the last piece of `a`.
pub proof fn lemma_split_append_plain(a: Seq<char>, b: Seq<char>, sep: char)
    requires
        !b.contains(sep),
    ensures
        split(a, sep).len() >= 1,
        split(a + b, sep) == split(a, sep).drop_last().push(split(a, sep).last() + b),
    decreases b.len(),
{
    lemma_split_nonempty(a, sep);
    let pieces = split(a, sep);
    if b.len() == 0 {
        assert(a + b =~= a);
        assert(pieces.last() + b =~= pieces.last());
        assert(pieces.drop_last().push(pieces.last()) =~= pieces);
    } else {
        let shorter = b.drop_last();
        assert(!shorter.contains(sep)) by {
            if shorter.contains(sep) {
                let i = choose|i: int| 0 <= i < shorter.len() && shorter[i] == sep;
                assert(b[i] == sep);
            }
        }
        assert(b.last() != sep) by {
            assert(b[b.len() - 1] == b.last());
        }
        lemma_split_append_plain(a, shorter, sep);
        assert((a + b).drop_last() =~= a + shorter);
        assert((a + b).last() == b.last());
        let before = split(a + shorter, sep);
        assert(before.drop_last() =~= pieces.drop_last());
        assert(before.last().push(b.last()) =~= pieces.last() + b);
    }
}

/// Splitting undoes joining, provided that no piece holds a separator.
pub proof fn lemma_split_join(parts: Seq<Seq<char>>, sep: char)
    requires
        parts.len() >= 1,
        forall|i: int| 0 <= i < parts.len() ==> !(#[trigger] parts[i]).contains(sep),
    ensures
        split(join(parts, sep), sep) == parts,
    decreases parts.len(),
{
    let none = Seq::<char>::empty();
    if parts.len() == 1 {
        lemma_split_append_plain(none, parts[0], sep);
        assert(none + parts[0] =~= parts[0]);
        assert(split(none, sep) =~= seq![none]);
        assert(seq![none].drop_last().push(none + parts[0]) =~= parts);
    } else {
        let front = parts.drop_last();
        lemma_split_join(front, sep);
        let head = join(front, sep).push(sep);
        assert(head.drop_last() =~= join(front, sep));
        assert(split(head, sep) == front.push(none));
        lemma_split_append_plain(head, parts.last(), sep);
        assert(front.push(none).drop_last() =~= front);
        assert(none + parts.last() =~= parts.last());
        assert(front.push(parts.last()) =~= parts);
    }
}

/// Cuts `path` into its names at every separator.
pub fn split_path(path: &str) -> (segments: Vec<String>)
    ensures
        views(segments@) == split(path@, SEPARATOR),
        segments.len() >= 1,
{
    let total = path.unicode_len();
    let mut segments: Vec<String> = Vec::new();
    let mut start: usize = 0;
    let mut at: usize = 0;
    assert(path@.subrange(0, 0) =~= Seq::<char>::empty());
    assert(views(segments@).push(path@.subrange(0, 0)) =~= seq![Seq::<char>::empty()]);
    assert(path@.take(0).len() == 0);
    for c in it: path.chars()
        invariant
            it.seq() == path@,
            total == path@.len(),
            at == it.index(),
            start <= at,
            split(path@.take(at as int), SEPARATOR) == views(segments@).push(
                path@.subrange(start as int, at as int),
            ),
    {
        let ghost before = split(path@.take(at as int), SEPARATOR);
        let ghost done = views(segments@);
        let ghost open = path@.subrange(start as int, at as int);
        assert(path@.take(at + 1).drop_last() =~= path@.take(at as int));
        assert(path@.take(at + 1).last() == c);
        assert(before.drop_last() =~= done);
        assert(before.last() == open);
        if c == SEPARATOR {
            let piece = path.substring_char(start, at);
            segments.push(piece.to_owned());
            start = at + 1;
            assert(views(segments@) =~= done.push(open));
            assert(path@.subrange(start as int, at + 1) =~= Seq::<char>::empty());
        } else {
            assert(open.push(c) =~= path@.subrange(start as int, at + 1));
        }
        at = at + 1;
    }
    assert(path@.take(at as int) =~= path@);
    let ghost done = views(segments@);
    let piece = path.substring_char(start, at);
    segments.push(piece.to_owned());
    assert(views(segments@) =~= done.push(path@.subrange(start as int, at as int)));
    segments
}

} // verus!

//! Splitting a text into pieces, words and lines, and joining pieces again.
use crate::text::{find, index_of, is_whitespace, lemma_index_of, whitespace, CharSet};
use vstd::prelude::*;
use vstd::slice::{slice_subrange, slice_to_vec};

verus! {

/// The texts held by a sequence of character vectors.
pub open spec fn texts(v: Seq<Vec<char>>) -> Seq<Seq<char>> {
    Seq::new(v.len(), |i: int| v[i]@)
}

/// The texts held by a sequence of strings.
pub open spec fn strings(v: Seq<String>) -> Seq<Seq<char>> {
    Seq::new(v.len(), |i: int| v[i]@)
}

/// The pieces of `s` between occurrences of `sep`. There is always at least one
/// piece; two adjacent separators enclose an empty piece.
pub open spec fn split(s: Seq<char>, sep: char) -> Seq<Seq<char>>
    decreases s.len(),
{
    let i = index_of(s, CharSet::Exactly(sep));
    if 0 <= i < s.len() {
        seq![s.take(i)] + split(s.skip(i + 1), sep)
    } else {
        seq![s]
    }
}

/// The maximal runs of characters of `s` that are not white space, in order.
pub open spec fn words(s: Seq<char>) -> Seq<Seq<char>>
    decreases s.len(),
{
    if s.len() == 0 {
        seq![]
    } else if whitespace(s[0]) {
        words(s.drop_first())
    } else {
        let n = index_of(s, CharSet::Whitespace);
        if 0 < n <= s.len() {
            seq![s.take(n)] + words(s.skip(n))
        } else {
            seq![]
        }
    }
}

/// The pieces of `parts` with `sep` between each two neighbours.
pub open spec fn join(parts: Seq<Seq<char>>, sep: Seq<char>) -> Seq<char>
    decreases parts.len(),
{
    if parts.len() == 0 {
        seq![]
    } else if parts.len() == 1 {
        parts[0]
    } else {
        parts[0] + sep + join(parts.drop_first(), sep)
    }
}

/// `line` without one carriage return at its end.
pub open spec fn without_cr(line: Seq<char>) -> Seq<char> {
    if line.len() > 0 && line.last() == '\r' {
        line.drop_last()
    } else {
        line
    }
}

/// The lines of `text`. A line ends at a line feed; a carriage return directly
/// before that line feed belongs to the line ending. The last line needs no line
/// feed, and a text that ends in a line feed has no empty last line.
pub open spec fn lines_of(text: Seq<char>) -> Seq<Seq<char>>
    decreases text.len(),
{
    let i = index_of(text, CharSet::Exactly('\n'));
    if text.len() == 0 {
        seq![]
    } else if 0 <= i < text.len() {
        seq![without_cr(text.take(i))] + lines_of(text.skip(i + 1))
    } else {
        seq![text]
    }
}

/// Joining one more piece appends the separator and the piece.
pub proof fn lemma_join_push(parts: Seq<Seq<char>>, sep: Seq<char>, last: Seq<char>)
    ensures
        join(parts.push(last), sep) == if parts.len() == 0 {
            last
        } else {
            join(parts, sep) + sep + last
        },
    decreases parts.len(),
{
    let all = parts.push(last);
    if parts.len() == 0 {
        assert(all[0] == last);
    } else if parts.len() == 1 {
        assert(all.drop_first() =~= seq![last]);
        assert(join(all.drop_first(), sep) == last);
        assert(all[0] == parts[0]);
    } else {
        lemma_join_push(parts.drop_first(), sep, last);
        assert(all.drop_first() =~= parts.drop_first().push(last));
        assert(all[0] == parts[0]);
        assert(join(all, sep) =~= join(parts, sep) + sep + last);
    }
}

/// A text without the separator is the only piece of its split.
pub proof fn lemma_split_single(s: Seq<char>, sep: char)
    requires
        !s.contains(sep),
    ensures
        split(s, sep) == seq![s],
{
    let set = CharSet::Exactly(sep);
    lemma_index_of(s, set);
    let i = index_of(s, set);
    if i < s.len() {
        assert(s.contains(s[i]));
    }
}

/// Splitting a join of pieces that hold no separator gives the pieces back.
pub proof fn lemma_split_of_join(parts: Seq<Seq<char>>, sep: char)
    requires
        parts.len() >= 1,
        forall|k: int| 0 <= k < parts.len() ==> !(#[trigger] parts[k]).contains(sep),
    ensures
        split(join(parts, seq![sep]), sep) == parts,
    decreases parts.len(),
{
    let set = CharSet::Exactly(sep);
    if parts.len() == 1 {
        lemma_split_single(parts[0], sep);
        assert(parts =~= seq![parts[0]]);
    } else {
        let rest = parts.drop_first();
        assert forall|k: int| 0 <= k < rest.len() implies !(#[trigger] rest[k]).contains(sep) by {
            assert(rest[k] == parts[k + 1]);
        }
        lemma_split_of_join(rest, sep);
        let s = join(parts, seq![sep]);
        let n = parts[0].len() as int;
        assert(s =~= parts[0] + seq![sep] + join(rest, seq![sep]));
        assert forall|i: int| 0 <= i < n implies !set.has(#[trigger] s[i]) by {
            assert(s[i] == parts[0][i]);
            if s[i] == sep {
                assert(parts[0].contains(sep));
            }
        }
        assert(s[n] == sep);
        crate::text::lemma_index_of_is(s, set, n);
        assert(s.take(n) =~= parts[0]);
        assert(s.skip(n + 1) =~= join(rest, seq![sep]));
        assert(split(s, sep) =~= parts);
    }
}

/// A copy of the characters of `s` from `from` up to `to`.
pub fn copy_range(s: &[char], from: usize, to: usize) -> (out: Vec<char>)
    requires
        from <= to <= s.len(),
    ensures
        out@ == s@.subrange(from as int, to as int),
{
    slice_to_vec(slice_subrange(s, from, to))
}

/// The pieces of `s` between occurrences of `sep`.
pub fn split_on(s: &[char], sep: char) -> (out: Vec<Vec<char>>)
    ensures
        texts(out@) == split(s@, sep),
        out.len() >= 1,
{
    let mut out: Vec<Vec<char>> = Vec::new();
    let mut start: usize = 0;
    proof {
        assert(s@.skip(0) =~= s@);
        assert(texts(out@) + split(s@, sep) =~= split(s@, sep));
    }
    loop
        invariant
            start <= s.len(),
            texts(out@) + split(s@.skip(start as int), sep) == split(s@, sep),
        decreases s.len() - start,
    {
        let rest = slice_subrange(s, start, s.len());
        assert(rest@ =~= s@.skip(start as int));
        let i = find(rest, CharSet::Exactly(sep));
        if i < rest.len() {
            let piece = copy_range(rest, 0, i);
            proof {
                assert(rest@.skip(i as int + 1) =~= s@.skip(start as int + i as int + 1));
                assert(rest@.take(i as int) =~= piece@);
                assert(texts(out@.push(piece)) =~= texts(out@) + seq![piece@]);
                assert((texts(out@) + seq![piece@]) + split(rest@.skip(i as int + 1), sep)
                    =~= texts(out@) + (seq![piece@] + split(rest@.skip(i as int + 1), sep)));
            }
            out.push(piece);
            start = start + i + 1;
        } else {
            let piece = copy_range(rest, 0, rest.len());
            proof {
                assert(piece@ =~= rest@);
                assert(texts(out@.push(piece)) =~= texts(out@) + seq![piece@]);
            }
            out.push(piece);
            return out;
        }
    }
}

/// The maximal runs of characters of `s` that are not white space.
pub fn split_whitespace(s: &[char]) -> (out: Vec<Vec<char>>)
    ensures
        texts(out@) == words(s@),
{
    let mut out: Vec<Vec<char>> = Vec::new();
    let mut pos: usize = 0;
    proof {
        assert(s@.skip(0) =~= s@);
        assert(texts(out@) + words(s@) =~= words(s@));
    }
    while pos < s.len()
        invariant
            pos <= s.len(),
            texts(out@) + words(s@.skip(pos as int)) == words(s@),
        decreases s.len() - pos,
    {
        let rest = slice_subrange(s, pos, s.len());
        assert(rest@ =~= s@.skip(pos as int));
        if is_whitespace(s[pos]) {
            assert(rest@.drop_first() =~= s@.skip(pos as int + 1));
            pos += 1;
        } else {
            let n = find(rest, CharSet::Whitespace);
            let piece = copy_range(rest, 0, n);
            proof {
                lemma_index_of(rest@, CharSet::Whitespace);
                assert(n > 0) by {
                    if n == 0 {
                        assert(CharSet::Whitespace.has(rest@[0]));
                    }
                }
                assert(rest@.skip(n as int) =~= s@.skip(pos as int + n as int));
                assert(rest@.take(n as int) =~= piece@);
                assert(texts(out@.push(piece)) =~= texts(out@) + seq![piece@]);
                assert((texts(out@) + seq![piece@]) + words(rest@.skip(n as int)) =~= texts(
                    out@,
                ) + (seq![piece@] + words(rest@.skip(n as int))));
            }
            out.push(piece);
            pos = pos + n;
        }
    }
    assert(s@.skip(pos as int).len() == 0);
    assert(texts(out@) + Seq::<Seq<char>>::empty() =~= texts(out@));
    out
}

/// The lines of `text`.
pub fn split_lines(text: &[char]) -> (out: Vec<Vec<char>>)
    ensures
        texts(out@) == lines_of(text@),
{
    let mut out: Vec<Vec<char>> = Vec::new();
    let mut pos: usize = 0;
    proof {
        assert(text@.skip(0) =~= text@);
        assert(texts(out@) + lines_of(text@) =~= lines_of(text@));
    }
    while pos < text.len()
        invariant
            pos <= text.len(),
            texts(out@) + lines_of(text@.skip(pos as int)) == lines_of(text@),
        decreases text.len() - pos,
    {
        let rest = slice_subrange(text, pos, text.len());
        assert(rest@ =~= text@.skip(pos as int));
        let i = find(rest, CharSet::Exactly('\n'));
        if i < rest.len() {
            let end: usize = if i > 0 && rest[i - 1] == '\r' {
                i - 1
            } else {
                i
            };
            let piece = copy_range(rest, 0, end);
            proof {
                assert(rest@.skip(i as int + 1) =~= text@.skip(pos as int + i as int + 1));
                assert(without_cr(rest@.take(i as int)) =~= piece@);
                assert(texts(out@.push(piece)) =~= texts(out@) + seq![piece@]);
                assert((texts(out@) + seq![piece@]) + lines_of(rest@.skip(i as int + 1))
                    =~= texts(out@) + (seq![piece@] + lines_of(rest@.skip(i as int + 1))));
            }
            out.push(piece);
            pos = pos + i + 1;
        } else {
            let piece = copy_range(rest, 0, rest.len());
            proof {
                assert(piece@ =~= rest@);
                assert(texts(out@.push(piece)) =~= texts(out@) + seq![piece@]);
                assert(text@.skip(text.len() as int).len() == 0);
                assert((texts(out@) + seq![piece@]) + Seq::<Seq<char>>::empty() =~= texts(out@)
                    + seq![piece@]);
            }
            out.push(piece);
            pos = text.len();
        }
    }
    assert(text@.skip(pos as int).len() == 0);
    assert(texts(out@) + Seq::<Seq<char>>::empty() =~= texts(out@));
    out
}

} // verus!

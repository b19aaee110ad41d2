//! Round-trip fidelity: what parsing and serializing do to a text.
use crate::split::{join, lines_of, without_cr};
use crate::ssh_config::model::{
    element_views, same_element, same_elements, ConfigElement, ElementView,
};
use crate::ssh_config::parser::{flushed, has_crlf, line_directive, parsed, run, step};
use crate::ssh_config::writer::{
    document_lines, element_lines, lemma_trailing_newlines, raw_lines, serialized,
    trailing_newlines, with_final_newline,
};
use crate::text::{index_of, index_of_pair, lemma_index_of, lemma_index_of_pair, CharSet};
use vstd::prelude::*;

verus! {

/// Whether `line` ends in a carriage return.
pub open spec fn ends_in_cr(line: Seq<char>) -> bool {
    line.len() > 0 && line.last() == '\r'
}

/// The lines of a document with one more element are its lines and then those
/// of the element.
pub proof fn lemma_document_lines_push(es: Seq<ElementView>, e: ElementView)
    ensures
        document_lines(es.push(e)) == document_lines(es) + element_lines(e),
{
    assert(es.push(e).drop_last() =~= es);
}

/// The parser keeps every line: the lines of what it has built, with the open
/// stanza closed, are the lines it has read.
pub proof fn lemma_parser_keeps_lines(lines: Seq<Seq<char>>)
    ensures
        document_lines(flushed(run(lines))) == lines,
    decreases lines.len(),
{
    if lines.len() == 0 {
        assert(document_lines(flushed(run(lines))) =~= lines);
    } else {
        let before = lines.drop_last();
        let line = lines.last();
        let st = run(before);
        lemma_parser_keeps_lines(before);
        let next = step(st, line);
        assert(run(lines) == next);
        assert(before.push(line) =~= lines);
        match st.open {
            Some(b) => {
                lemma_document_lines_push(st.elements, ElementView::HostBlock(b));
            },
            None => {},
        }
        match next.open {
            Some(b) => {
                lemma_document_lines_push(next.elements, ElementView::HostBlock(b));
            },
            None => {},
        }
        if next.open is None {
            // an `Include` line or a global line was appended
            assert(next.elements.len() > 0);
            assert(next.elements.drop_last() =~= flushed(st));
            assert(element_lines(next.elements.last()) =~= seq![line]);
            lemma_document_lines_push(flushed(st), next.elements.last());
            assert(flushed(st).push(next.elements.last()) =~= next.elements);
            assert(document_lines(flushed(next)) =~= before + seq![line]);
        } else if st.open is Some && next.elements == st.elements {
            // the line joined the open stanza
            let b = st.open->0;
            let nb = next.open->0;
            assert(line_directive(line).raw_line == line);
            assert(raw_lines(nb.directives) =~= raw_lines(b.directives).push(line));
            assert(document_lines(flushed(next)) =~= (document_lines(st.elements) + (seq![
                b.raw_host_line,
            ] + raw_lines(b.directives))) + seq![line]);
        } else {
            // a `Host` line opened a new stanza
            let nb = next.open->0;
            assert(raw_lines(nb.directives) =~= Seq::<Seq<char>>::empty());
            assert(document_lines(flushed(next)) =~= before + seq![line]);
        }
    }
}

/// A text has no lines exactly when it is empty, and no line holds a line feed.
pub proof fn lemma_lines_of(text: Seq<char>)
    ensures
        (lines_of(text).len() == 0) == (text.len() == 0),
        forall|k: int| 0 <= k < lines_of(text).len() ==> !(#[trigger] lines_of(text)[k]).contains(
            '\n',
        ),
    decreases text.len(),
{
    let set = CharSet::Exactly('\n');
    let i = index_of(text, set);
    lemma_index_of(text, set);
    if text.len() == 0 {
    } else if 0 <= i < text.len() {
        let rest = text.skip(i + 1);
        lemma_lines_of(rest);
        let head = without_cr(text.take(i));
        let all = lines_of(text);
        assert forall|k: int| 0 <= k < all.len() implies !(#[trigger] all[k]).contains('\n') by {
            if k == 0 {
                if all[0].contains('\n') {
                    let j = choose|j: int| 0 <= j < head.len() && head[j] == '\n';
                    assert(text[j] == '\n');
                    assert(set.has(text[j]));
                }
            } else {
                assert(all[k] == lines_of(rest)[k - 1]);
            }
        }
    } else {
        let all = lines_of(text);
        assert forall|k: int| 0 <= k < all.len() implies !(#[trigger] all[k]).contains('\n') by {
            if all[0].contains('\n') {
                let j = choose|j: int| 0 <= j < text.len() && text[j] == '\n';
                assert(set.has(text[j]));
            }
        }
    }
}

/// Joining the lines of a text without CRLF gives the text back, up to one line
/// feed at its end.
pub proof fn lemma_join_lines(text: Seq<char>)
    requires
        !has_crlf(text),
    ensures
        text.len() > 0 && text.last() == '\n' ==> text == join(lines_of(text), seq!['\n']).push(
            '\n',
        ),
        !(text.len() > 0 && text.last() == '\n') ==> text == join(lines_of(text), seq!['\n']),
    decreases text.len(),
{
    let set = CharSet::Exactly('\n');
    let sep = seq!['\n'];
    let i = index_of(text, set);
    lemma_index_of(text, set);
    lemma_index_of_pair(text, '\r', '\n');
    if text.len() == 0 {
    } else if 0 <= i < text.len() {
        let rest = text.skip(i + 1);
        let head = text.take(i);
        assert(without_cr(head) == head) by {
            if i > 0 && head.last() == '\r' {
                assert(text[i - 1] == '\r' && text[i] == '\n');
            }
        }
        assert(!has_crlf(rest)) by {
            lemma_index_of_pair(rest, '\r', '\n');
            let p = index_of_pair(rest, '\r', '\n');
            if p < rest.len() {
                assert(text[i + 1 + p] == rest[p]);
                assert(text[i + 1 + p + 1] == rest[p + 1]);
            }
        }
        lemma_join_lines(rest);
        lemma_lines_of(rest);
        let all = lines_of(text);
        assert(all[0] == head);
        assert(all.drop_first() =~= lines_of(rest));
        assert(text =~= head + sep + rest);
        if rest.len() == 0 {
            assert(all.len() == 1);
            assert(join(all, sep) == head);
            assert(text =~= head.push('\n'));
        } else {
            let jr = join(lines_of(rest), sep);
            assert(join(all, sep) == head + sep + jr);
            assert(text.last() == rest.last());
            if rest.last() == '\n' {
                assert(text =~= (head + sep + jr).push('\n'));
            } else {
                assert(text =~= head + sep + jr);
            }
        }
    } else {
        if text.last() == '\n' {
            assert(set.has(text[text.len() - 1]));
        }
    }
}

/// One more line feed at the end of a text does not change what the text is
/// with exactly one.
pub proof fn lemma_final_newline_once(s: Seq<char>)
    ensures
        with_final_newline(s.push('\n')) == with_final_newline(s),
{
    let t = s.push('\n');
    assert(t.drop_last() =~= s);
    lemma_trailing_newlines(s);
    assert(t.take(t.len() - trailing_newlines(t)) =~= s.take(s.len() - trailing_newlines(s)));
}

/// A text that ends in exactly one line feed is what it is with exactly one.
pub proof fn lemma_final_newline_fixed(s: Seq<char>)
    ensures
        with_final_newline(with_final_newline(s)) == with_final_newline(s),
{
    lemma_trailing_newlines(s);
    let body = s.take(s.len() - trailing_newlines(s));
    let t = with_final_newline(s);
    assert(t.drop_last() =~= body);
    assert(trailing_newlines(body) == 0) by {
        if body.len() > 0 {
            assert(body.last() == s[s.len() - trailing_newlines(s) - 1]);
        }
    }
    assert(trailing_newlines(t) == 1);
    assert(t.take(t.len() - 1) =~= body);
}

/// No line is lost or changed by parsing: the lines of the document, element
/// after element, are the lines of the text, each character for character. This
/// holds of every text, whatever characters it holds and wherever they stand.
pub proof fn every_line_is_kept(text: Seq<char>)
    ensures
        document_lines(parsed(text)) == lines_of(text),
{
    lemma_parser_keeps_lines(lines_of(text));
}

/// Parsing a text and serializing the result gives the text back, with the line
/// feeds at its end replaced by exactly one. This holds of every text in which
/// no carriage return stands directly before a line feed.
pub proof fn round_trip(text: Seq<char>)
    requires
        !has_crlf(text),
    ensures
        serialized(parsed(text)) == with_final_newline(text),
{
    lemma_parser_keeps_lines(lines_of(text));
    lemma_join_lines(text);
    if text.len() > 0 && text.last() == '\n' {
        lemma_final_newline_once(join(lines_of(text), seq!['\n']));
    }
}

/// Joined lines hold no CRLF if no line ends in a carriage return.
proof fn lemma_join_without_crlf(lines: Seq<Seq<char>>)
    requires
        forall|k: int| 0 <= k < lines.len() ==> !ends_in_cr(#[trigger] lines[k]),
        forall|k: int| 0 <= k < lines.len() ==> !(#[trigger] lines[k]).contains('\n'),
    ensures
        !has_crlf(join(lines, seq!['\n'])),
    decreases lines.len(),
{
    let sep = seq!['\n'];
    let j = join(lines, sep);
    lemma_index_of_pair(j, '\r', '\n');
    let p = index_of_pair(j, '\r', '\n');
    if lines.len() == 0 {
    } else if lines.len() == 1 {
        if p < j.len() {
            assert(lines[0].contains('\n'));
        }
    } else {
        let rest = lines.drop_first();
        assert forall|k: int| 0 <= k < rest.len() implies !ends_in_cr(#[trigger] rest[k]) by {
            assert(rest[k] == lines[k + 1]);
        }
        assert forall|k: int| 0 <= k < rest.len() implies !(#[trigger] rest[k]).contains('\n') by {
            assert(rest[k] == lines[k + 1]);
        }
        lemma_join_without_crlf(rest);
        let jr = join(rest, sep);
        let head = lines[0];
        let n = head.len() as int;
        assert(j =~= head + sep + jr);
        lemma_index_of_pair(jr, '\r', '\n');
        if p < j.len() {
            if p + 1 < n {
                assert(j[p + 1] == head[p + 1]);
                assert(head.contains('\n'));
            } else if p + 1 == n {
                assert(j[p] == head[n - 1]);
                assert(ends_in_cr(head));
            } else if p == n {
                assert(j[p] == '\n');
            } else {
                assert(j[p] == jr[p - n - 1]);
                assert(j[p + 1] == jr[p - n]);
            }
        }
    }
}

/// The last character of joined lines is a line feed or the end of the last line.
proof fn lemma_join_last(lines: Seq<Seq<char>>)
    requires
        lines.len() > 0,
    ensures
        join(lines, seq!['\n']).len() > 0 ==> join(lines, seq!['\n']).last() == '\n' || (
        lines.last().len() > 0 && join(lines, seq!['\n']).last() == lines.last().last()),
    decreases lines.len(),
{
    let sep = seq!['\n'];
    if lines.len() > 1 {
        let rest = lines.drop_first();
        lemma_join_last(rest);
        let jr = join(rest, sep);
        let j = join(lines, sep);
        assert(j =~= lines[0] + sep + jr);
        assert(rest.last() == lines.last());
        if jr.len() > 0 {
            assert(j.last() == jr.last());
        } else {
            assert(j.last() == '\n');
        }
    }
}

/// Serializing, parsing and serializing again changes nothing: what the first
/// pass wrote is what the second writes. This holds of every text none of whose
/// lines ends in a carriage return.
pub proof fn reserialize_is_stable(text: Seq<char>)
    requires
        forall|k: int| 0 <= k < lines_of(text).len() ==> !ends_in_cr(#[trigger] lines_of(text)[k]),
    ensures
        serialized(parsed(serialized(parsed(text)))) == serialized(parsed(text)),
{
    let lines = lines_of(text);
    let sep = seq!['\n'];
    let j = join(lines, sep);
    let once = serialized(parsed(text));
    lemma_parser_keeps_lines(lines);
    lemma_lines_of(text);
    lemma_join_without_crlf(lines);
    lemma_trailing_newlines(j);
    let body = j.take(j.len() - trailing_newlines(j));
    assert(once == body.push('\n'));
    assert(!has_crlf(once)) by {
        lemma_index_of_pair(once, '\r', '\n');
        lemma_index_of_pair(j, '\r', '\n');
        let p = index_of_pair(once, '\r', '\n');
        if p < once.len() {
            if p + 1 < body.len() {
                assert(once[p] == j[p] && once[p + 1] == j[p + 1]);
            } else {
                assert(p + 1 == body.len());
                assert(once[p] == j[p]);
                if trailing_newlines(j) > 0 {
                    assert(j[p + 1] == '\n');
                } else {
                    assert(body =~= j);
                    lemma_join_last(lines);
                    assert(ends_in_cr(lines.last()));
                }
            }
        }
    }
    round_trip(once);
    lemma_final_newline_fixed(j);
}

/// A copy of a document has the same text.
pub proof fn copy_has_same_text(a: Seq<ConfigElement>, b: Seq<ConfigElement>)
    requires
        same_elements(a, b),
    ensures
        serialized(element_views(a)) == serialized(element_views(b)),
        document_lines(element_views(a)) == document_lines(element_views(b)),
    decreases a.len(),
{
    let x = element_views(a);
    let y = element_views(b);
    if a.len() > 0 {
        let a0 = a.drop_last();
        let b0 = b.drop_last();
        assert forall|i: int| 0 <= i < a0.len() implies same_element(#[trigger] a0[i], b0[i]) by {
            assert(same_element(a[i], b[i]));
        }
        copy_has_same_text(a0, b0);
        assert(x.drop_last() =~= element_views(a0));
        assert(y.drop_last() =~= element_views(b0));
        assert(same_element(a[a.len() - 1], b[a.len() - 1]));
        assert(element_lines(x.last()) == element_lines(y.last()));
    }
}

} // verus!

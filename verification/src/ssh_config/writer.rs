//! Rendering a document back to text.
use crate::split::{join, lemma_join_push};
use crate::ssh_config::model::{
    directive_views, element_views, ConfigElement, DirectiveView, ElementView, SshConfigFile,
};
use crate::text::{chars_of, string_of};
use vstd::prelude::*;
use vstd::slice::slice_subrange;

verus! {

/// The raw lines of a list of directives.
pub open spec fn raw_lines(ds: Seq<DirectiveView>) -> Seq<Seq<char>> {
    Seq::new(ds.len(), |i: int| ds[i].raw_line)
}

/// The lines that one element stands for: a global line itself, a stanza's `Host`
/// line and the raw lines of its directives, an `Include` directive's own line.
/// What an `Include` resolved to is not part of the text.
pub open spec fn element_lines(e: ElementView) -> Seq<Seq<char>> {
    match e {
        ElementView::GlobalLine(l) => seq![l],
        ElementView::HostBlock(b) => seq![b.raw_host_line] + raw_lines(b.directives),
        ElementView::Include(inc) => seq![inc.raw_line],
    }
}

/// The lines of a document, element after element.
pub open spec fn document_lines(es: Seq<ElementView>) -> Seq<Seq<char>>
    decreases es.len(),
{
    if es.len() == 0 {
        seq![]
    } else {
        document_lines(es.drop_last()) + element_lines(es.last())
    }
}

/// Number of line feeds at the end of `s`.
pub open spec fn trailing_newlines(s: Seq<char>) -> nat
    decreases s.len(),
{
    if s.len() > 0 && s.last() == '\n' {
        1 + trailing_newlines(s.drop_last())
    } else {
        0
    }
}

/// `s` with the line feeds at its end replaced by exactly one.
pub open spec fn with_final_newline(s: Seq<char>) -> Seq<char> {
    s.take(s.len() - trailing_newlines(s)).push('\n')
}

/// The text of a document: its lines joined by line feeds, ending in exactly one
/// line feed.
pub open spec fn serialized(es: Seq<ElementView>) -> Seq<char> {
    with_final_newline(join(document_lines(es), seq!['\n']))
}

/// `trailing_newlines` is determined by the last character that is no line feed.
pub proof fn lemma_trailing_newlines_is(s: Seq<char>, n: int)
    requires
        0 <= n <= s.len(),
        forall|i: int| s.len() - n <= i < s.len() ==> #[trigger] s[i] == '\n',
        n < s.len() ==> s[s.len() - n - 1] != '\n',
    ensures
        trailing_newlines(s) == n,
    decreases s.len(),
{
    if n > 0 {
        let t = s.drop_last();
        assert(s[s.len() - 1] == '\n');
        assert forall|i: int| t.len() - (n - 1) <= i < t.len() implies #[trigger] t[i]
            == '\n' by {
            assert(t[i] == s[i]);
        }
        lemma_trailing_newlines_is(t, n - 1);
    }
}

/// The bounds of `trailing_newlines(s)` and what lies on each side.
pub proof fn lemma_trailing_newlines(s: Seq<char>)
    ensures
        trailing_newlines(s) <= s.len(),
        forall|i: int| s.len() - trailing_newlines(s) <= i < s.len() ==> #[trigger] s[i] == '\n',
        trailing_newlines(s) < s.len() ==> s[s.len() - trailing_newlines(s) - 1] != '\n',
    decreases s.len(),
{
    if s.len() > 0 && s.last() == '\n' {
        let t = s.drop_last();
        lemma_trailing_newlines(t);
        assert forall|i: int| s.len() - trailing_newlines(s) <= i < s.len() implies #[trigger] s[i]
            == '\n' by {
            if i < s.len() - 1 {
                assert(s[i] == t[i]);
            }
        }
        if trailing_newlines(s) < s.len() {
            assert(s[s.len() - trailing_newlines(s) - 1] == t[t.len() - trailing_newlines(t) - 1]);
        }
    }
}

/// Appends `line` to `out`, after a line feed if `out` holds lines already.
fn push_line(out: &mut Vec<char>, first: &mut bool, line: &str, Ghost(lines): Ghost<
    Seq<Seq<char>>,
>)
    requires
        *old(first) == (lines.len() == 0),
        old(out)@ == join(lines, seq!['\n']),
    ensures
        !*final(first),
        final(out)@ == join(lines.push(line@), seq!['\n']),
{
    proof {
        lemma_join_push(lines, seq!['\n'], line@);
    }
    let ghost before = out@;
    if !*first {
        out.push('\n');
    }
    *first = false;
    let ghost mid = out@;
    let cs = chars_of(line);
    let mut i: usize = 0;
    while i < cs.len()
        invariant
            i <= cs.len(),
            out@ == mid + cs@.take(i as int),
        decreases cs.len() - i,
    {
        out.push(cs[i]);
        assert(mid + cs@.take(i as int + 1) =~= (mid + cs@.take(i as int)).push(cs@[i as int]));
        i += 1;
    }
    proof {
        assert(cs@.take(i as int) =~= cs@);
        if lines.len() > 0 {
            assert(mid == before.push('\n'));
            assert(before.push('\n') + line@ =~= before + seq!['\n'] + line@);
        } else {
            assert(before =~= Seq::<char>::empty());
            assert(mid + line@ =~= line@);
        }
    }
}

impl SshConfigFile {
    /// The text of the document.
    pub fn serialize(&self) -> (out: String)
        ensures
            out@ == serialized(element_views(self.elements@)),
    {
        let mut buf: Vec<char> = Vec::new();
        let mut first = true;
        let ghost es = element_views(self.elements@);
        let ghost mut lines: Seq<Seq<char>> = Seq::empty();
        let mut i: usize = 0;
        proof {
            assert(es.take(0) =~= Seq::<ElementView>::empty());
        }
        while i < self.elements.len()
            invariant
                i <= self.elements.len(),
                es == element_views(self.elements@),
                lines == document_lines(es.take(i as int)),
                first == (lines.len() == 0),
                buf@ == join(lines, seq!['\n']),
            decreases self.elements.len() - i,
        {
            proof {
                let t = es.take(i as int + 1);
                assert(t.drop_last() =~= es.take(i as int));
                assert(t.last() == self.elements@[i as int]@);
            }
            let ghost start = lines;
            match &self.elements[i] {
                ConfigElement::GlobalLine(line) => {
                    push_line(&mut buf, &mut first, line.as_str(), Ghost(lines));
                    proof {
                        lines = lines.push(line@);
                        assert(lines =~= start + seq![line@]);
                    }
                },
                ConfigElement::HostBlock(block) => {
                    push_line(&mut buf, &mut first, block.raw_host_line.as_str(), Ghost(lines));
                    proof {
                        lines = lines.push(block.raw_host_line@);
                    }
                    let ghost ds = directive_views(block.directives@);
                    let mut j: usize = 0;
                    proof {
                        assert(lines =~= start + (seq![block.raw_host_line@] + raw_lines(ds).take(
                            0,
                        )));
                    }
                    while j < block.directives.len()
                        invariant
                            j <= block.directives.len(),
                            ds == directive_views(block.directives@),
                            lines == start + (seq![block.raw_host_line@] + raw_lines(ds).take(
                                j as int,
                            )),
                            first == (lines.len() == 0),
                            buf@ == join(lines, seq!['\n']),
                        decreases block.directives.len() - j,
                    {
                        let d = &block.directives[j];
                        push_line(&mut buf, &mut first, d.raw_line.as_str(), Ghost(lines));
                        proof {
                            lines = lines.push(d.raw_line@);
                            assert(raw_lines(ds).take(j as int + 1) =~= raw_lines(ds).take(
                                j as int,
                            ).push(d.raw_line@));
                            assert(lines =~= start + (seq![block.raw_host_line@] + raw_lines(
                                ds,
                            ).take(j as int + 1)));
                        }
                        j += 1;
                    }
                    proof {
                        assert(raw_lines(ds).take(j as int) =~= raw_lines(ds));
                    }
                },
                ConfigElement::Include(inc) => {
                    push_line(&mut buf, &mut first, inc.raw_line.as_str(), Ghost(lines));
                    proof {
                        lines = lines.push(inc.raw_line@);
                        assert(lines =~= start + seq![inc.raw_line@]);
                    }
                },
            }
            i += 1;
        }
        proof {
            assert(es.take(i as int) =~= es);
        }
        let mut n: usize = buf.len();
        while n > 0 && buf[n - 1] == '\n'
            invariant
                n <= buf.len(),
                forall|k: int| n <= k < buf.len() ==> #[trigger] buf@[k] == '\n',
            decreases n,
        {
            n -= 1;
        }
        proof {
            lemma_trailing_newlines_is(buf@, buf.len() - n);
        }
        let mut out = string_of(slice_subrange(buf.as_slice(), 0, n));
        out.append("\n");
        proof {
            reveal_strlit("\n");
            assert("\n"@ =~= seq!['\n']);
            assert(buf@.take(n as int) + seq!['\n'] =~= buf@.take(n as int).push('\n'));
        }
        out
    }
}

} // verus!

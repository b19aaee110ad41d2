//! Reading a document from text, line by line.
//!
//! Every line of the input ends up verbatim in exactly one place of the element
//! model: as a global line, as the `Host` line of a stanza, as the raw line of one
//! of its directives, or as the raw line of an `Include` directive.
use crate::split::{lines_of, split_lines, texts};
use crate::ssh_config::model::{
    directive_views, element_views, ConfigElement, Directive, DirectiveView, ElementView,
    HostBlock, HostBlockView, IncludeDirective, IncludeView, SshConfigFile,
};
use crate::text::{
    ascii_whitespace, chars_of, eq_ignore_case, find, find_pair, index_of, index_of_pair,
    is_ascii_whitespace, same_ignoring_case, string_of, trim, trim_end, trimmed, trimmed_end,
    CharSet,
};
use vstd::prelude::*;
use vstd::slice::slice_subrange;

verus! {

/// How deep `Include` directives are followed. A document read at this depth
/// keeps its `Include` lines and resolves none of them.
pub const MAX_INCLUDE_DEPTH: usize = 5;

/// The pattern of an `Include` line, given the line without surrounding white
/// space: the keyword in any case, one ASCII white space, and a pattern that is
/// not blank.
pub open spec fn include_pattern(t: Seq<char>) -> Option<Seq<char>> {
    if t.len() > 8 && same_ignoring_case(t.take(7), "include"@) && ascii_whitespace(t[7])
        && trimmed(t.skip(8)).len() > 0 {
        Some(trimmed(t.skip(8)))
    } else {
        None
    }
}

/// The pattern of a `Host` line, given the line without surrounding white space:
/// the whole first word is the keyword in any case, a space or a tab follows it,
/// and the rest is not blank.
pub open spec fn host_pattern(t: Seq<char>) -> Option<Seq<char>> {
    let n = index_of(t, CharSet::Blank);
    if 0 <= n < t.len() && same_ignoring_case(t.take(n), "host"@) && trimmed(t.skip(n + 1)).len()
        > 0 {
        Some(trimmed(t.skip(n + 1)))
    } else {
        None
    }
}

/// `value` without an inline comment: a `#` directly after a space, or else
/// directly after a tab, begins one.
pub open spec fn without_comment(value: Seq<char>) -> Seq<char> {
    let a = index_of_pair(value, ' ', '#');
    let b = index_of_pair(value, '\t', '#');
    if 0 <= a < value.len() {
        trimmed_end(value.take(a))
    } else if 0 <= b < value.len() {
        trimmed_end(value.take(b))
    } else {
        value
    }
}

/// Key and value of a directive line, given the line without surrounding white
/// space. The key ends at the first `=` of the line if there is one, else at the
/// first white space. A line without a key is no directive.
pub open spec fn directive_parts(t: Seq<char>) -> Option<(Seq<char>, Seq<char>)> {
    let eq = index_of(t, CharSet::Exactly('='));
    let ws = index_of(t, CharSet::Whitespace);
    let (key, value) = if 0 <= eq < t.len() {
        (trimmed(t.take(eq)), trimmed(t.skip(eq + 1)))
    } else if 0 <= ws < t.len() {
        (t.take(ws), trimmed(t.skip(ws + 1)))
    } else {
        (t, Seq::<char>::empty())
    };
    if key.len() == 0 {
        None
    } else {
        Some((key, without_comment(value)))
    }
}

/// A line that is kept but has no key and value.
pub open spec fn plain_line(line: Seq<char>) -> DirectiveView {
    DirectiveView {
        key: Seq::empty(),
        value: Seq::empty(),
        raw_line: line,
        is_non_directive: true,
    }
}

/// What a line inside a stanza becomes. Blank lines, comments and lines without a
/// key are kept as they are; the rest are split into key and value.
pub open spec fn line_directive(line: Seq<char>) -> DirectiveView {
    let t = trimmed(line);
    if t.len() == 0 || t[0] == '#' {
        plain_line(line)
    } else {
        match directive_parts(t) {
            Some((key, value)) => DirectiveView {
                key,
                value,
                raw_line: line,
                is_non_directive: false,
            },
            None => plain_line(line),
        }
    }
}

/// Whether `line` begins with a space or a tab.
pub open spec fn indented(line: Seq<char>) -> bool {
    line.len() > 0 && (line[0] == ' ' || line[0] == '\t')
}

/// The parser between two lines: the finished elements and the stanza that is
/// still open.
pub ghost struct ParseState {
    pub elements: Seq<ElementView>,
    pub open: Option<HostBlockView>,
}

/// The elements once the open stanza, if any, is closed.
pub open spec fn flushed(st: ParseState) -> Seq<ElementView> {
    match st.open {
        Some(b) => st.elements.push(ElementView::HostBlock(b)),
        None => st.elements,
    }
}

/// The state after one more line.
///
/// An `Include` line is recognised outside a stanza, and inside one only when it
/// is not indented; it closes the open stanza. A `Host` line closes the open
/// stanza and opens a new one. Any other line joins the open stanza, or stands
/// as a global line when none is open.
pub open spec fn step(st: ParseState, line: Seq<char>) -> ParseState {
    let t = trimmed(line);
    if !(st.open is Some && indented(line)) && include_pattern(t) is Some {
        ParseState {
            elements: flushed(st).push(
                ElementView::Include(
                    IncludeView {
                        raw_line: line,
                        pattern: include_pattern(t)->0,
                        resolved_files: Seq::empty(),
                    },
                ),
            ),
            open: None,
        }
    } else if host_pattern(t) is Some {
        ParseState {
            elements: flushed(st),
            open: Some(
                HostBlockView {
                    host_pattern: host_pattern(t)->0,
                    raw_host_line: line,
                    directives: Seq::empty(),
                },
            ),
        }
    } else {
        match st.open {
            Some(b) => ParseState {
                elements: st.elements,
                open: Some(
                    HostBlockView { directives: b.directives.push(line_directive(line)), ..b },
                ),
            },
            None => ParseState {
                elements: st.elements.push(ElementView::GlobalLine(line)),
                open: None,
            },
        }
    }
}

/// The state after all of `lines`.
pub open spec fn run(lines: Seq<Seq<char>>) -> ParseState
    decreases lines.len(),
{
    if lines.len() == 0 {
        ParseState { elements: Seq::empty(), open: None }
    } else {
        step(run(lines.drop_last()), lines.last())
    }
}

/// The elements of the document whose text is `text`, no `Include` resolved.
pub open spec fn parsed(text: Seq<char>) -> Seq<ElementView> {
    flushed(run(lines_of(text)))
}

/// Whether `text` holds a carriage return directly followed by a line feed.
pub open spec fn has_crlf(text: Seq<char>) -> bool {
    index_of_pair(text, '\r', '\n') < text.len()
}

/// The pattern of an `Include` line.
fn parse_include_line(t: &[char]) -> (r: Option<String>)
    ensures
        match r {
            Some(p) => include_pattern(t@) == Some(p@),
            None => include_pattern(t@) is None,
        },
{
    if t.len() > 8 {
        let keyword = chars_of("include");
        if eq_ignore_case(slice_subrange(t, 0, 7), keyword.as_slice()) && is_ascii_whitespace(
            t[7],
        ) {
            let pattern = trim(slice_subrange(t, 8, t.len()));
            if pattern.len() > 0 {
                return Some(string_of(pattern));
            }
        }
    }
    None
}

/// The pattern of a `Host` line.
fn parse_host_line(t: &[char]) -> (r: Option<String>)
    ensures
        match r {
            Some(p) => host_pattern(t@) == Some(p@),
            None => host_pattern(t@) is None,
        },
{
    let n = find(t, CharSet::Blank);
    if n < t.len() {
        let keyword = chars_of("host");
        if eq_ignore_case(slice_subrange(t, 0, n), keyword.as_slice()) {
            let pattern = trim(slice_subrange(t, n + 1, t.len()));
            if pattern.len() > 0 {
                return Some(string_of(pattern));
            }
        }
    }
    None
}

/// `value` without an inline comment.
fn strip_comment<'a>(value: &'a [char]) -> (r: &'a [char])
    ensures
        r@ == without_comment(value@),
{
    let a = find_pair(value, ' ', '#');
    if a < value.len() {
        return trim_end(slice_subrange(value, 0, a));
    }
    let b = find_pair(value, '\t', '#');
    if b < value.len() {
        return trim_end(slice_subrange(value, 0, b));
    }
    value
}

/// Key and value of a directive line.
fn parse_directive(t: &[char]) -> (r: Option<(String, String)>)
    ensures
        match r {
            Some((k, v)) => directive_parts(t@) == Some((k@, v@)),
            None => directive_parts(t@) is None,
        },
{
    let eq = find(t, CharSet::Exactly('='));
    let (key, value) = if eq < t.len() {
        (trim(slice_subrange(t, 0, eq)), trim(slice_subrange(t, eq + 1, t.len())))
    } else {
        let ws = find(t, CharSet::Whitespace);
        if ws < t.len() {
            (slice_subrange(t, 0, ws), trim(slice_subrange(t, ws + 1, t.len())))
        } else {
            let none = slice_subrange(t, 0, 0);
            assert(none@ =~= Seq::<char>::empty());
            assert(t@.subrange(0, t@.len() as int) =~= t@);
            (slice_subrange(t, 0, t.len()), none)
        }
    };
    if key.len() == 0 {
        return None;
    }
    let value = strip_comment(value);
    Some((string_of(key), string_of(value)))
}

/// What a line inside a stanza becomes.
fn parse_block_line(line: &[char], t: &[char]) -> (d: Directive)
    requires
        t@ == trimmed(line@),
    ensures
        d@ == line_directive(line@),
{
    if t.len() > 0 && t[0] != '#' {
        match parse_directive(t) {
            Some((key, value)) => {
                return Directive { key, value, raw_line: string_of(line), is_non_directive: false };
            },
            None => {},
        }
    }
    Directive {
        key: String::new(),
        value: String::new(),
        raw_line: string_of(line),
        is_non_directive: true,
    }
}

impl SshConfigFile {
    /// The elements of the document whose text is `content`. No `Include` is
    /// resolved: each keeps its line and pattern and has no files.
    pub fn parse_content(content: &str) -> (elements: Vec<ConfigElement>)
        ensures
            element_views(elements@) == parsed(content@),
    {
        let text = chars_of(content);
        let lines = split_lines(text.as_slice());
        let ghost all = lines_of(content@);
        let mut elements: Vec<ConfigElement> = Vec::new();
        let mut in_block = false;
        let mut pattern = String::new();
        let mut host_line = String::new();
        let mut directives: Vec<Directive> = Vec::new();
        let mut i: usize = 0;
        proof {
            assert(all.take(0) =~= Seq::<Seq<char>>::empty());
            assert(element_views(elements@) =~= Seq::<ElementView>::empty());
        }
        while i < lines.len()
            invariant
                i <= lines.len(),
                texts(lines@) == all,
                element_views(elements@) == run(all.take(i as int)).elements,
                in_block == (run(all.take(i as int)).open is Some),
                in_block ==> run(all.take(i as int)).open == Some(
                    HostBlockView {
                        host_pattern: pattern@,
                        raw_host_line: host_line@,
                        directives: directive_views(directives@),
                    },
                ),
            decreases lines.len() - i,
        {
            let line = lines[i].as_slice();
            let t = trim(line);
            let ghost st = run(all.take(i as int));
            proof {
                let next = all.take(i as int + 1);
                assert(next.drop_last() =~= all.take(i as int));
                assert(next.last() == line@);
                assert(run(next) == step(st, line@));
            }
            let is_indented = line.len() > 0 && (line[0] == ' ' || line[0] == '\t');
            let included = if in_block && is_indented {
                None
            } else {
                parse_include_line(t)
            };
            if let Some(inc_pattern) = included {
                if in_block {
                    let block = HostBlock {
                        host_pattern: pattern,
                        raw_host_line: host_line,
                        directives,
                    };
                    proof {
                        assert(element_views(elements@.push(ConfigElement::HostBlock(block)))
                            =~= element_views(elements@).push(ElementView::HostBlock(block@)));
                    }
                    elements.push(ConfigElement::HostBlock(block));
                    pattern = String::new();
                    host_line = String::new();
                    directives = Vec::new();
                    in_block = false;
                }
                let inc = IncludeDirective {
                    raw_line: string_of(line),
                    pattern: inc_pattern,
                    resolved_files: Vec::new(),
                };
                proof {
                    assert(inc@.resolved_files =~= Seq::empty());
                    assert(element_views(elements@.push(ConfigElement::Include(inc)))
                        =~= element_views(elements@).push(ElementView::Include(inc@)));
                }
                elements.push(ConfigElement::Include(inc));
            } else if let Some(new_pattern) = parse_host_line(t) {
                if in_block {
                    let block = HostBlock {
                        host_pattern: pattern,
                        raw_host_line: host_line,
                        directives,
                    };
                    proof {
                        assert(element_views(elements@.push(ConfigElement::HostBlock(block)))
                            =~= element_views(elements@).push(ElementView::HostBlock(block@)));
                    }
                    elements.push(ConfigElement::HostBlock(block));
                }
                pattern = new_pattern;
                host_line = string_of(line);
                directives = Vec::new();
                in_block = true;
                proof {
                    assert(directive_views(directives@) =~= Seq::<DirectiveView>::empty());
                }
            } else if in_block {
                let d = parse_block_line(line, t);
                proof {
                    assert(directive_views(directives@.push(d)) =~= directive_views(
                        directives@,
                    ).push(d@));
                }
                directives.push(d);
            } else {
                let global = ConfigElement::GlobalLine(string_of(line));
                proof {
                    assert(element_views(elements@.push(global)) =~= element_views(
                        elements@,
                    ).push(ElementView::GlobalLine(line@)));
                }
                elements.push(global);
            }
            i += 1;
        }
        proof {
            assert(all.take(i as int) =~= all);
        }
        if in_block {
            let block = HostBlock { host_pattern: pattern, raw_host_line: host_line, directives };
            proof {
                assert(element_views(elements@.push(ConfigElement::HostBlock(block)))
                    =~= element_views(elements@).push(ElementView::HostBlock(block@)));
            }
            elements.push(ConfigElement::HostBlock(block));
        }
        elements
    }

    /// The document at `path` whose text is `content`. No `Include` is resolved.
    pub fn parse(path: &str, content: &str) -> (doc: SshConfigFile)
        ensures
            doc.path@ == path@,
            doc.crlf == has_crlf(content@),
            element_views(doc.elements@) == parsed(content@),
    {
        let text = chars_of(content);
        let at = find_pair(text.as_slice(), '\r', '\n');
        SshConfigFile {
            elements: Self::parse_content(content),
            path: String::from_str(path),
            crlf: at < text.len(),
        }
    }
}

} // verus!

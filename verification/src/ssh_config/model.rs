//! The element model of a configuration document and its mathematical views.
use vstd::prelude::*;

verus! {

/// The entire configuration file as a sequence of elements.
#[derive(Debug)]
pub struct SshConfigFile {
    pub elements: Vec<ConfigElement>,
    /// Where the document was read from.
    pub path: String,
    /// Whether the source used CRLF line endings.
    pub crlf: bool,
}

/// An `Include` directive together with the files it resolved to.
#[derive(Debug)]
pub struct IncludeDirective {
    /// The line as it stands in the source.
    pub raw_line: String,
    /// The pattern as written, before any expansion.
    pub pattern: String,
    pub resolved_files: Vec<IncludedFile>,
}

/// A file that an `Include` directive resolved to.
#[derive(Debug)]
pub struct IncludedFile {
    pub path: String,
    pub elements: Vec<ConfigElement>,
}

/// One element of a document.
#[derive(Debug)]
pub enum ConfigElement {
    /// A `Host` stanza: the `Host` line and the lines that follow it.
    HostBlock(HostBlock),
    /// A comment, blank line or global directive outside any stanza.
    GlobalLine(String),
    /// An `Include` directive.
    Include(IncludeDirective),
}

/// A `Host` stanza.
#[derive(Debug, Clone)]
pub struct HostBlock {
    /// The text after the `Host` keyword.
    pub host_pattern: String,
    /// The `Host` line as it stands in the source.
    pub raw_host_line: String,
    /// The lines of the stanza.
    pub directives: Vec<Directive>,
}

/// One line inside a stanza.
#[derive(Debug, Clone)]
pub struct Directive {
    pub key: String,
    pub value: String,
    /// The line as it stands in the source.
    pub raw_line: String,
    /// Whether the line is blank, a comment, or otherwise not a key and a value.
    pub is_non_directive: bool,
}

/// A flat record of one host, derived from a stanza.
#[derive(Debug, Clone)]
pub struct HostEntry {
    pub alias: String,
    pub hostname: String,
    pub user: String,
    pub port: u16,
    pub identity_file: String,
    pub proxy_jump: String,
    /// The included file that holds the stanza, if it is not the document itself.
    pub source_file: Option<String>,
    pub tags: Vec<String>,
}

/// What a [`Directive`] holds.
pub ghost struct DirectiveView {
    pub key: Seq<char>,
    pub value: Seq<char>,
    pub raw_line: Seq<char>,
    pub is_non_directive: bool,
}

/// What a [`HostBlock`] holds.
pub ghost struct HostBlockView {
    pub host_pattern: Seq<char>,
    pub raw_host_line: Seq<char>,
    pub directives: Seq<DirectiveView>,
}

/// What an [`IncludeDirective`] holds. The resolved files stay as they are: an
/// edit never looks into them.
pub ghost struct IncludeView {
    pub raw_line: Seq<char>,
    pub pattern: Seq<char>,
    pub resolved_files: Seq<IncludedFile>,
}

/// What a [`ConfigElement`] holds.
pub ghost enum ElementView {
    HostBlock(HostBlockView),
    GlobalLine(Seq<char>),
    Include(IncludeView),
}

/// What a [`HostEntry`] holds.
pub ghost struct HostEntryView {
    pub alias: Seq<char>,
    pub hostname: Seq<char>,
    pub user: Seq<char>,
    pub port: u16,
    pub identity_file: Seq<char>,
    pub proxy_jump: Seq<char>,
    pub source_file: Option<Seq<char>>,
    pub tags: Seq<Seq<char>>,
}

impl View for Directive {
    type V = DirectiveView;

    open spec fn view(&self) -> DirectiveView {
        DirectiveView {
            key: self.key@,
            value: self.value@,
            raw_line: self.raw_line@,
            is_non_directive: self.is_non_directive,
        }
    }
}

/// The views of a sequence of directives.
pub open spec fn directive_views(v: Seq<Directive>) -> Seq<DirectiveView> {
    Seq::new(v.len(), |i: int| v[i]@)
}

impl View for HostBlock {
    type V = HostBlockView;

    open spec fn view(&self) -> HostBlockView {
        HostBlockView {
            host_pattern: self.host_pattern@,
            raw_host_line: self.raw_host_line@,
            directives: directive_views(self.directives@),
        }
    }
}

impl View for IncludeDirective {
    type V = IncludeView;

    open spec fn view(&self) -> IncludeView {
        IncludeView {
            raw_line: self.raw_line@,
            pattern: self.pattern@,
            resolved_files: self.resolved_files@,
        }
    }
}

impl View for ConfigElement {
    type V = ElementView;

    open spec fn view(&self) -> ElementView {
        match self {
            ConfigElement::HostBlock(b) => ElementView::HostBlock(b@),
            ConfigElement::GlobalLine(l) => ElementView::GlobalLine(l@),
            ConfigElement::Include(inc) => ElementView::Include(inc@),
        }
    }
}

/// The views of a sequence of elements.
pub open spec fn element_views(v: Seq<ConfigElement>) -> Seq<ElementView> {
    Seq::new(v.len(), |i: int| v[i]@)
}

impl View for HostEntry {
    type V = HostEntryView;

    open spec fn view(&self) -> HostEntryView {
        HostEntryView {
            alias: self.alias@,
            hostname: self.hostname@,
            user: self.user@,
            port: self.port,
            identity_file: self.identity_file@,
            proxy_jump: self.proxy_jump@,
            source_file: match self.source_file {
                Some(p) => Some(p@),
                None => None,
            },
            tags: crate::split::strings(self.tags@),
        }
    }
}

/// The views of a sequence of host records.
pub open spec fn entry_views(v: Seq<HostEntry>) -> Seq<HostEntryView> {
    Seq::new(v.len(), |i: int| v[i]@)
}

impl Default for HostEntry {
    /// The record with every text empty, port 0, no source file and no tags.
    fn default() -> (r: Self)
        ensures
            r@ == (HostEntryView {
                alias: Seq::empty(),
                hostname: Seq::empty(),
                user: Seq::empty(),
                port: 0,
                identity_file: Seq::empty(),
                proxy_jump: Seq::empty(),
                source_file: None,
                tags: Seq::empty(),
            }),
    {
        let r = HostEntry {
            alias: String::new(),
            hostname: String::new(),
            user: String::new(),
            port: 0,
            identity_file: String::new(),
            proxy_jump: String::new(),
            source_file: None,
            tags: Vec::new(),
        };
        assert(r@.tags =~= Seq::empty());
        r
    }
}

/// Whether two runs of elements hold the same, down to every included file.
pub open spec fn same_elements(a: Seq<ConfigElement>, b: Seq<ConfigElement>) -> bool
    decreases a, 0nat,
{
    a.len() == b.len() && forall|i: int|
        0 <= i < a.len() ==> same_element(#[trigger] a[i], b[i])
}

/// Whether two elements hold the same.
pub open spec fn same_element(a: ConfigElement, b: ConfigElement) -> bool
    decreases a, 0nat,
{
    match a {
        ConfigElement::HostBlock(x) => b matches ConfigElement::HostBlock(y) && x@ == y@,
        ConfigElement::GlobalLine(x) => b matches ConfigElement::GlobalLine(y) && x@ == y@,
        ConfigElement::Include(x) => b matches ConfigElement::Include(y) && x.raw_line@
            == y.raw_line@ && x.pattern@ == y.pattern@ && same_files(
            x.resolved_files@,
            y.resolved_files@,
        ),
    }
}

/// Whether two runs of included files hold the same.
pub open spec fn same_files(a: Seq<IncludedFile>, b: Seq<IncludedFile>) -> bool
    decreases a, 0nat,
{
    a.len() == b.len() && forall|i: int|
        0 <= i < a.len() ==> (#[trigger] a[i]).path@ == b[i].path@ && same_elements(
            a[i].elements@,
            b[i].elements@,
        )
}

/// A copy of `d`.
pub fn copy_directive(d: &Directive) -> (r: Directive)
    ensures
        r@ == d@,
{
    Directive {
        key: d.key.clone(),
        value: d.value.clone(),
        raw_line: d.raw_line.clone(),
        is_non_directive: d.is_non_directive,
    }
}

/// A copy of `b`.
pub fn copy_block(b: &HostBlock) -> (r: HostBlock)
    ensures
        r@ == b@,
{
    let mut directives: Vec<Directive> = Vec::new();
    let mut i: usize = 0;
    while i < b.directives.len()
        invariant
            i <= b.directives.len(),
            directives@.len() == i,
            forall|k: int| 0 <= k < i ==> (#[trigger] directives@[k])@ == b.directives@[k]@,
        decreases b.directives.len() - i,
    {
        directives.push(copy_directive(&b.directives[i]));
        i += 1;
    }
    let r = HostBlock {
        host_pattern: b.host_pattern.clone(),
        raw_host_line: b.raw_host_line.clone(),
        directives,
    };
    proof {
        assert(r@.directives =~= b@.directives);
    }
    r
}

/// A copy of `files`, down to every file included from them.
pub fn copy_files(files: &Vec<IncludedFile>) -> (out: Vec<IncludedFile>)
    ensures
        same_files(files@, out@),
    decreases files,
{
    let mut out: Vec<IncludedFile> = Vec::new();
    let mut j: usize = 0;
    while j < files.len()
        invariant
            j <= files.len(),
            out@.len() == j,
            forall|k: int|
                0 <= k < j ==> (#[trigger] files@[k]).path@ == out@[k].path@ && same_elements(
                    files@[k].elements@,
                    out@[k].elements@,
                ),
        decreases files.len() - j,
    {
        let file = &files[j];
        proof {
            assert(decreases_to!(files => *file));
        }
        out.push(IncludedFile { path: file.path.clone(), elements: copy_elements(&file.elements) });
        j += 1;
    }
    out
}

/// A copy of an `Include` directive and of what it resolved to.
fn copy_include(inc: &IncludeDirective) -> (r: IncludeDirective)
    ensures
        r.raw_line@ == inc.raw_line@,
        r.pattern@ == inc.pattern@,
        same_files(inc.resolved_files@, r.resolved_files@),
    decreases inc,
{
    IncludeDirective {
        raw_line: inc.raw_line.clone(),
        pattern: inc.pattern.clone(),
        resolved_files: copy_files(&inc.resolved_files),
    }
}

/// A copy of `e`, down to every included file.
fn copy_element(e: &ConfigElement) -> (r: ConfigElement)
    ensures
        same_element(*e, r),
    decreases e,
{
    match e {
        ConfigElement::HostBlock(b) => ConfigElement::HostBlock(copy_block(b)),
        ConfigElement::GlobalLine(l) => ConfigElement::GlobalLine(l.clone()),
        ConfigElement::Include(inc) => ConfigElement::Include(copy_include(inc)),
    }
}

/// A copy of `elements`, down to every included file.
pub fn copy_elements(elements: &Vec<ConfigElement>) -> (out: Vec<ConfigElement>)
    ensures
        same_elements(elements@, out@),
    decreases elements,
{
    let mut out: Vec<ConfigElement> = Vec::new();
    let mut i: usize = 0;
    while i < elements.len()
        invariant
            i <= elements.len(),
            out@.len() == i,
            forall|k: int| 0 <= k < i ==> same_element(#[trigger] elements@[k], out@[k]),
        decreases elements.len() - i,
    {
        proof {
            assert(decreases_to!(elements => elements[i as int]));
        }
        out.push(copy_element(&elements[i]));
        i += 1;
    }
    out
}

impl Clone for ConfigElement {
    fn clone(&self) -> (r: Self)
        ensures
            same_element(*self, r),
    {
        copy_element(self)
    }
}

impl Clone for IncludeDirective {
    fn clone(&self) -> (r: Self)
        ensures
            r.raw_line@ == self.raw_line@,
            r.pattern@ == self.pattern@,
            same_files(self.resolved_files@, r.resolved_files@),
    {
        copy_include(self)
    }
}

impl Clone for IncludedFile {
    fn clone(&self) -> (r: Self)
        ensures
            r.path@ == self.path@,
            same_elements(self.elements@, r.elements@),
    {
        IncludedFile { path: self.path.clone(), elements: copy_elements(&self.elements) }
    }
}

impl Clone for SshConfigFile {
    fn clone(&self) -> (r: Self)
        ensures
            r.path@ == self.path@,
            r.crlf == self.crlf,
            same_elements(self.elements@, r.elements@),
    {
        SshConfigFile {
            elements: copy_elements(&self.elements),
            path: self.path.clone(),
            crlf: self.crlf,
        }
    }
}

} // verus!

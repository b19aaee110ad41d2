//! Reading a document: host records, tags, alias lookup and included paths.
use crate::number::{parse_u16, parsed_u16};
use crate::split::{split, split_on, split_whitespace, strings, texts, words};
use crate::ssh_config::model::{
    element_views, entry_views, ConfigElement, DirectiveView, ElementView, HostBlock,
    HostBlockView, HostEntry, HostEntryView, IncludedFile, SshConfigFile,
};
use crate::text::{
    chars_of, contains, eq_ignore_case, same, same_ignoring_case, starts_with, string_of, trim,
    trimmed, CharSet,
};
use vstd::prelude::*;
use vstd::slice::slice_subrange;

verus! {

/// The text that opens a tag comment.
pub open spec fn tag_marker() -> Seq<char> {
    "# purple:tags "@
}

/// The pieces of a tag list that are not blank, each without surrounding white space.
pub open spec fn kept_tags(pieces: Seq<Seq<char>>) -> Seq<Seq<char>>
    decreases pieces.len(),
{
    if pieces.len() == 0 {
        seq![]
    } else {
        let before = kept_tags(pieces.drop_last());
        let t = trimmed(pieces.last());
        if t.len() > 0 {
            before.push(t)
        } else {
            before
        }
    }
}

/// The tags that a line lists, if it is a tag comment.
pub open spec fn line_tags(raw_line: Seq<char>) -> Option<Seq<Seq<char>>> {
    let t = trimmed(raw_line);
    if tag_marker().is_prefix_of(t) {
        Some(kept_tags(split(t.skip(tag_marker().len() as int), ',')))
    } else {
        None
    }
}

/// The tags of a stanza: those of its first tag comment, none without one.
pub open spec fn tags_of(ds: Seq<DirectiveView>) -> Seq<Seq<char>>
    decreases ds.len(),
{
    if ds.len() == 0 {
        seq![]
    } else if ds[0].is_non_directive && line_tags(ds[0].raw_line) is Some {
        line_tags(ds[0].raw_line)->0
    } else {
        tags_of(ds.drop_first())
    }
}

/// Whether `d` is a real directive whose key is `key` up to ASCII case.
pub open spec fn has_key(d: DirectiveView, key: Seq<char>) -> bool {
    !d.is_non_directive && same_ignoring_case(d.key, key)
}

/// The value of the last directive with the given key.
pub open spec fn last_value(ds: Seq<DirectiveView>, key: Seq<char>) -> Option<Seq<char>>
    decreases ds.len(),
{
    if ds.len() == 0 {
        None
    } else if has_key(ds.last(), key) {
        Some(ds.last().value)
    } else {
        last_value(ds.drop_last(), key)
    }
}

/// The first value that is not empty among the directives with the given key,
/// or the empty text.
pub open spec fn first_filled_value(ds: Seq<DirectiveView>, key: Seq<char>) -> Seq<char>
    decreases ds.len(),
{
    if ds.len() == 0 {
        seq![]
    } else {
        let before = first_filled_value(ds.drop_last(), key);
        if before.len() == 0 && has_key(ds.last(), key) {
            ds.last().value
        } else {
            before
        }
    }
}

/// The text of an optional value, empty when there is none.
pub open spec fn or_empty(v: Option<Seq<char>>) -> Seq<char> {
    match v {
        Some(s) => s,
        None => seq![],
    }
}

/// The port that the directives give: that of the last `Port` line, 22 when there
/// is none or when its value is no port number.
pub open spec fn port_of(ds: Seq<DirectiveView>) -> u16 {
    match last_value(ds, "port"@) {
        Some(v) => match parsed_u16(v) {
            Some(p) => p,
            None => 22,
        },
        None => 22,
    }
}

/// The host record of a stanza.
pub open spec fn entry_of(b: HostBlockView) -> HostEntryView {
    HostEntryView {
        alias: b.host_pattern,
        hostname: or_empty(last_value(b.directives, "hostname"@)),
        user: or_empty(last_value(b.directives, "user"@)),
        port: port_of(b.directives),
        identity_file: first_filled_value(b.directives, "identityfile"@),
        proxy_jump: or_empty(last_value(b.directives, "proxyjump"@)),
        source_file: None,
        tags: tags_of(b.directives),
    }
}

/// Whether a stanza with this pattern names one concrete host: no wildcard, no
/// space, no tab.
pub open spec fn concrete(pattern: Seq<char>) -> bool {
    !pattern.contains('*') && !pattern.contains('?') && !pattern.contains(' ')
        && !pattern.contains('\t')
}

/// The text of an optional string.
pub open spec fn option_text(s: Option<&String>) -> Option<Seq<char>> {
    match s {
        Some(p) => Some(p@),
        None => None,
    }
}

/// The host records of `elements`, depth first, included files in their place.
/// Each record carries `source` if its stanza stands in `elements` itself, and
/// the path of the nearest enclosing file if it stands in an included one.
pub open spec fn entries_from(elements: Seq<ConfigElement>, source: Option<Seq<char>>) -> Seq<
    HostEntryView,
>
    decreases elements, 0nat,
{
    if elements.len() == 0 {
        seq![]
    } else {
        entries_from(elements.drop_last(), source) + element_entries(elements.last(), source)
    }
}

/// The host records that one element contributes.
pub open spec fn element_entries(e: ConfigElement, source: Option<Seq<char>>) -> Seq<
    HostEntryView,
>
    decreases e, 0nat,
{
    match e {
        ConfigElement::HostBlock(b) => if concrete(b@.host_pattern) {
            seq![HostEntryView { source_file: source, ..entry_of(b@) }]
        } else {
            seq![]
        },
        ConfigElement::GlobalLine(_) => seq![],
        ConfigElement::Include(inc) => files_entries(inc.resolved_files@),
    }
}

/// The host records of a list of included files.
pub open spec fn files_entries(files: Seq<IncludedFile>) -> Seq<HostEntryView>
    decreases files, 0nat,
{
    if files.len() == 0 {
        seq![]
    } else {
        files_entries(files.drop_last()) + entries_from(
            files.last().elements@,
            Some(files.last().path@),
        )
    }
}

/// Whether `alias` is one of the words of `pattern`.
pub open spec fn names(pattern: Seq<char>, alias: Seq<char>) -> bool {
    words(pattern).contains(alias)
}

/// Whether some stanza of `elements`, or of a file included from them, names `alias`.
pub open spec fn has_host_in(elements: Seq<ConfigElement>, alias: Seq<char>) -> bool
    decreases elements, 0nat,
{
    exists|i: int| 0 <= i < elements.len() && element_has_host(#[trigger] elements[i], alias)
}

/// Whether `e` is a stanza that names `alias` or includes a file that has one.
pub open spec fn element_has_host(e: ConfigElement, alias: Seq<char>) -> bool
    decreases e, 0nat,
{
    match e {
        ConfigElement::HostBlock(b) => names(b@.host_pattern, alias),
        ConfigElement::GlobalLine(_) => false,
        ConfigElement::Include(inc) => exists|j: int|
            0 <= j < inc.resolved_files@.len() && has_host_in(
                (#[trigger] inc.resolved_files@[j]).elements@,
                alias,
            ),
    }
}

/// Whether one of `files` has a stanza that names `alias`.
pub open spec fn files_have_host(files: Seq<IncludedFile>, alias: Seq<char>) -> bool {
    exists|j: int| 0 <= j < files.len() && has_host_in((#[trigger] files[j]).elements@, alias)
}

/// Whether `e` is a stanza that names `alias` or an `Include` of a file that
/// has one, seen through its view.
pub open spec fn view_has_host(e: ElementView, alias: Seq<char>) -> bool {
    match e {
        ElementView::HostBlock(b) => names(b.host_pattern, alias),
        ElementView::GlobalLine(_) => false,
        ElementView::Include(inc) => files_have_host(inc.resolved_files, alias),
    }
}

/// Whether some of the elements with these views names `alias`.
pub open spec fn hosts(es: Seq<ElementView>, alias: Seq<char>) -> bool {
    exists|i: int| 0 <= i < es.len() && view_has_host(#[trigger] es[i], alias)
}

/// Whether a document has a host can be read off the views of its elements.
pub proof fn lemma_hosts(elements: Seq<ConfigElement>, alias: Seq<char>)
    ensures
        has_host_in(elements, alias) == hosts(element_views(elements), alias),
{
    let es = element_views(elements);
    assert forall|i: int| 0 <= i < elements.len() implies element_has_host(
        #[trigger] elements[i],
        alias,
    ) == view_has_host(es[i], alias) by {
        match elements[i] {
            ConfigElement::Include(inc) => {
                let files = inc.resolved_files@;
                assert(es[i] == ElementView::Include(inc@));
                if element_has_host(elements[i], alias) {
                    let j = choose|j: int|
                        0 <= j < files.len() && has_host_in((#[trigger] files[j]).elements@, alias);
                    assert(has_host_in(files[j].elements@, alias));
                    assert(files_have_host(files, alias));
                }
                if files_have_host(files, alias) {
                    let j = choose|j: int|
                        0 <= j < files.len() && has_host_in((#[trigger] files[j]).elements@, alias);
                    assert(has_host_in(files[j].elements@, alias));
                    assert(element_has_host(elements[i], alias));
                }
            },
            _ => {},
        }
    }
    if has_host_in(elements, alias) {
        let i = choose|i: int|
            0 <= i < elements.len() && element_has_host(#[trigger] elements[i], alias);
        assert(view_has_host(es[i], alias));
    }
    if hosts(es, alias) {
        let i = choose|i: int| 0 <= i < es.len() && view_has_host(#[trigger] es[i], alias);
        assert(element_has_host(elements[i], alias));
    }
}

/// The paths of all included files, depth first.
pub open spec fn paths_in(elements: Seq<ConfigElement>) -> Seq<Seq<char>>
    decreases elements, 0nat,
{
    if elements.len() == 0 {
        seq![]
    } else {
        paths_in(elements.drop_last()) + match elements.last() {
            ConfigElement::Include(inc) => files_paths(inc.resolved_files@),
            _ => seq![],
        }
    }
}

/// The paths of `files` and of all files included from them, depth first.
pub open spec fn files_paths(files: Seq<IncludedFile>) -> Seq<Seq<char>>
    decreases files, 0nat,
{
    if files.len() == 0 {
        seq![]
    } else {
        files_paths(files.drop_last()) + seq![files.last().path@] + paths_in(
            files.last().elements@,
        )
    }
}

/// `alias` between single quotes, each single quote inside it written as `'\''`.
pub open spec fn quoted(alias: Seq<char>) -> Seq<char>
    decreases alias.len(),
{
    if alias.len() == 0 {
        seq![]
    } else if alias.last() == '\'' {
        quoted(alias.drop_last()) + seq!['\'', '\\', '\'', '\'']
    } else {
        quoted(alias.drop_last()).push(alias.last())
    }
}

/// `n` spaces.
pub open spec fn spaces(n: nat) -> Seq<char> {
    Seq::new(n, |i: int| ' ')
}

/// `s` followed by spaces up to a width of `width` characters.
pub open spec fn padded(s: Seq<char>, width: nat) -> Seq<char> {
    if s.len() < width {
        s + spaces((width - s.len()) as nat)
    } else {
        s
    }
}

/// The line that lists a host: the alias in a column of 20 characters, then
/// `user@host:port`, without the user if there is none and without the port
/// if it is 22.
pub open spec fn listing(e: HostEntryView) -> Seq<char> {
    padded(e.alias, 20) + " "@ + (if e.user.len() > 0 {
        e.user + "@"@
    } else {
        Seq::empty()
    }) + e.hostname + (if e.port != 22 {
        ":"@ + crate::number::decimal(e.port as nat)
    } else {
        Seq::empty()
    })
}

impl HostEntry {
    /// The line that lists this host.
    pub fn list_line(&self) -> (line: String)
        ensures
            line@ == listing(self@),
    {
        let alias = chars_of(self.alias.as_str());
        let mut line = self.alias.clone();
        let mut n: usize = alias.len();
        while n < 20
            invariant
                alias@ == self.alias@,
                alias.len() <= n,
                n <= 20 || n == alias.len(),
                line@ == self.alias@ + spaces((n - alias.len()) as nat),
            decreases 20 - n,
        {
            line.append(" ");
            proof {
                reveal_strlit(" ");
                assert(spaces((n - alias.len()) as nat) + " "@ =~= spaces(
                    (n + 1 - alias.len()) as nat,
                ));
                assert(self.alias@ + spaces((n - alias.len()) as nat) + " "@ =~= self.alias@ + (
                spaces((n - alias.len()) as nat) + " "@));
            }
            n += 1;
        }
        proof {
            assert(line@ =~= padded(self.alias@, 20)) by {
                if alias.len() >= 20 {
                    assert(spaces(0) =~= Seq::<char>::empty());
                    assert(self.alias@ + spaces(0) =~= self.alias@);
                }
            }
        }
        line.append(" ");
        let ghost head = line@;
        if !self.user.as_str().is_empty() {
            line.append(self.user.as_str());
            line.append("@");
            assert(line@ =~= head + (self.user@ + "@"@));
        } else {
            assert(line@ =~= head + Seq::<char>::empty());
        }
        line.append(self.hostname.as_str());
        let ghost body = line@;
        if self.port != 22 {
            line.append(":");
            let port = string_of(crate::number::decimal_chars(self.port as u64).as_slice());
            line.append(port.as_str());
            assert(line@ =~= body + (":"@ + crate::number::decimal(self.port as nat)));
        } else {
            assert(line@ =~= body + Seq::<char>::empty());
        }
        line
    }

    /// The command line that connects to this host.
    pub open spec fn command_text(alias: Seq<char>) -> Seq<char> {
        "ssh -- '"@ + quoted(alias) + "'"@
    }

    /// The command line that connects to this host: `ssh -- '<alias>'`, with the
    /// alias quoted for a shell.
    pub fn ssh_command(&self) -> (out: String)
        ensures
            out@ == Self::command_text(self.alias@),
    {
        let alias = chars_of(self.alias.as_str());
        let mut body: Vec<char> = Vec::new();
        let mut i: usize = 0;
        assert(alias@.take(0) =~= Seq::<char>::empty());
        while i < alias.len()
            invariant
                i <= alias.len(),
                body@ == quoted(alias@.take(i as int)),
            decreases alias.len() - i,
        {
            let c = alias[i];
            proof {
                let t = alias@.take(i as int + 1);
                assert(t.drop_last() =~= alias@.take(i as int));
                assert(t.last() == c);
            }
            if c == '\'' {
                let ghost before = body@;
                body.push('\'');
                body.push('\\');
                body.push('\'');
                body.push('\'');
                assert(body@ =~= before + seq!['\'', '\\', '\'', '\'']);
            } else {
                body.push(c);
            }
            i += 1;
        }
        assert(alias@.take(i as int) =~= alias@);
        let mut out = String::from_str("ssh -- '");
        let quoted_alias = string_of(body.as_slice());
        out.append(quoted_alias.as_str());
        out.append("'");
        out
    }
}

impl HostBlock {
    /// The tags listed by the stanza's tag comment.
    pub fn tags(&self) -> (out: Vec<String>)
        ensures
            strings(out@) == tags_of(self@.directives),
    {
        let marker = chars_of("# purple:tags ");
        let mut i: usize = 0;
        let ghost ds = self@.directives;
        assert(ds.skip(0) =~= ds);
        while i < self.directives.len()
            invariant
                i <= self.directives.len(),
                ds == self@.directives,
                marker@ == tag_marker(),
                tags_of(ds) == tags_of(ds.skip(i as int)),
            decreases self.directives.len() - i,
        {
            let d = &self.directives[i];
            proof {
                assert(ds.skip(i as int)[0] == d@);
                assert(ds.skip(i as int).drop_first() =~= ds.skip(i as int + 1));
            }
            if d.is_non_directive {
                let raw = chars_of(d.raw_line.as_str());
                let t = trim(raw.as_slice());
                if starts_with(t, marker.as_slice()) {
                    let rest = slice_subrange(t, marker.len(), t.len());
                    assert(rest@ =~= t@.skip(tag_marker().len() as int));
                    let pieces = split_on(rest, ',');
                    let mut out: Vec<String> = Vec::new();
                    let mut k: usize = 0;
                    assert(texts(pieces@).take(0) =~= Seq::<Seq<char>>::empty());
                    assert(strings(out@) =~= Seq::<Seq<char>>::empty());
                    while k < pieces.len()
                        invariant
                            k <= pieces.len(),
                            strings(out@) == kept_tags(texts(pieces@).take(k as int)),
                        decreases pieces.len() - k,
                    {
                        let piece = trim(pieces[k].as_slice());
                        proof {
                            let p = texts(pieces@).take(k as int + 1);
                            assert(p.drop_last() =~= texts(pieces@).take(k as int));
                            assert(p.last() == pieces@[k as int]@);
                        }
                        if piece.len() > 0 {
                            let tag = string_of(piece);
                            assert(strings(out@.push(tag)) =~= strings(out@).push(tag@));
                            out.push(tag);
                        }
                        k += 1;
                    }
                    assert(texts(pieces@).take(k as int) =~= texts(pieces@));
                    return out;
                }
            }
            i += 1;
        }
        let out: Vec<String> = Vec::new();
        assert(strings(out@) =~= Seq::<Seq<char>>::empty());
        out
    }

    /// The host record of this stanza.
    pub fn to_host_entry(&self) -> (entry: HostEntry)
        ensures
            entry@ == entry_of(self@),
    {
        let k_hostname = chars_of("hostname");
        let k_user = chars_of("user");
        let k_port = chars_of("port");
        let k_identity = chars_of("identityfile");
        let k_proxy = chars_of("proxyjump");
        let mut hostname = String::new();
        let mut user = String::new();
        let mut port: u16 = 22;
        let mut identity_file = String::new();
        let mut proxy_jump = String::new();
        let ghost ds = self@.directives;
        let mut i: usize = 0;
        assert(ds.take(0) =~= Seq::<DirectiveView>::empty());
        while i < self.directives.len()
            invariant
                i <= self.directives.len(),
                ds == self@.directives,
                k_hostname@ == "hostname"@,
                k_user@ == "user"@,
                k_port@ == "port"@,
                k_identity@ == "identityfile"@,
                k_proxy@ == "proxyjump"@,
                hostname@ == or_empty(last_value(ds.take(i as int), "hostname"@)),
                user@ == or_empty(last_value(ds.take(i as int), "user"@)),
                port == port_of(ds.take(i as int)),
                identity_file@ == first_filled_value(ds.take(i as int), "identityfile"@),
                proxy_jump@ == or_empty(last_value(ds.take(i as int), "proxyjump"@)),
            decreases self.directives.len() - i,
        {
            let d = &self.directives[i];
            proof {
                let t = ds.take(i as int + 1);
                assert(t.drop_last() =~= ds.take(i as int));
                assert(t.last() == d@);
            }
            if !d.is_non_directive {
                let key = chars_of(d.key.as_str());
                if eq_ignore_case(key.as_slice(), k_hostname.as_slice()) {
                    hostname = d.value.clone();
                }
                if eq_ignore_case(key.as_slice(), k_user.as_slice()) {
                    user = d.value.clone();
                }
                if eq_ignore_case(key.as_slice(), k_port.as_slice()) {
                    let value = chars_of(d.value.as_str());
                    port = match parse_u16(value.as_slice()) {
                        Some(p) => p,
                        None => 22,
                    };
                }
                if eq_ignore_case(key.as_slice(), k_identity.as_slice()) {
                    if identity_file.as_str().is_empty() {
                        identity_file = d.value.clone();
                    }
                }
                if eq_ignore_case(key.as_slice(), k_proxy.as_slice()) {
                    proxy_jump = d.value.clone();
                }
            }
            i += 1;
        }
        assert(ds.take(i as int) =~= ds);
        HostEntry {
            alias: self.host_pattern.clone(),
            hostname,
            user,
            port,
            identity_file,
            proxy_jump,
            source_file: None,
            tags: self.tags(),
        }
    }
}

/// Whether `pattern` names one concrete host.
pub fn is_concrete(pattern: &str) -> (r: bool)
    ensures
        r == concrete(pattern@),
{
    let p = chars_of(pattern);
    let s = p.as_slice();
    proof {
        assert forall|c: char| p@.contains(c) <==> exists|i: int|
            0 <= i < p@.len() && CharSet::Exactly(c).has(#[trigger] p@[i]) by {
            if p@.contains(c) {
                let i = choose|i: int| 0 <= i < p@.len() && p@[i] == c;
                assert(CharSet::Exactly(c).has(p@[i]));
            }
        }
    }
    !contains(s, CharSet::Exactly('*')) && !contains(s, CharSet::Exactly('?')) && !contains(
        s,
        CharSet::Exactly(' '),
    ) && !contains(s, CharSet::Exactly('\t'))
}

/// Whether `alias` is one of the words of `pattern`.
pub fn pattern_names(pattern: &str, alias: &[char]) -> (r: bool)
    ensures
        r == names(pattern@, alias@),
{
    let p = chars_of(pattern);
    let tokens = split_whitespace(p.as_slice());
    let mut i: usize = 0;
    while i < tokens.len()
        invariant
            i <= tokens.len(),
            texts(tokens@) == words(pattern@),
            forall|k: int| 0 <= k < i ==> texts(tokens@)[k] != alias@,
        decreases tokens.len() - i,
    {
        if same(tokens[i].as_slice(), alias) {
            assert(texts(tokens@)[i as int] == alias@);
            return true;
        }
        i += 1;
    }
    false
}

/// Appends the host records of `elements` to `out`.
fn collect_host_entries(
    elements: &Vec<ConfigElement>,
    source: Option<&String>,
    out: &mut Vec<HostEntry>,
)
    ensures
        entry_views(final(out)@) == entry_views(old(out)@) + entries_from(
            elements@,
            option_text(source),
        ),
    decreases elements,
{
    let ghost before = entry_views(out@);
    let ghost src = option_text(source);
    let mut i: usize = 0;
    proof {
        assert(elements@.take(0) =~= Seq::<ConfigElement>::empty());
        assert(before + entries_from(elements@.take(0), src) =~= before);
    }
    while i < elements.len()
        invariant
            i <= elements.len(),
            src == option_text(source),
            entry_views(out@) == before + entries_from(elements@.take(i as int), src),
        decreases elements.len() - i,
    {
        let ghost done = elements@.take(i as int);
        proof {
            reveal_with_fuel(entries_from, 2);
            let t = elements@.take(i as int + 1);
            assert(t.drop_last() =~= done);
            assert(t.last() == elements@[i as int]);
        }
        match &elements[i] {
            ConfigElement::HostBlock(block) => {
                if is_concrete(block.host_pattern.as_str()) {
                    let mut entry = block.to_host_entry();
                    entry.source_file = match source {
                        Some(p) => Some(p.clone()),
                        None => None,
                    };
                    proof {
                        assert(entry@ == (HostEntryView { source_file: src, ..entry_of(block@) }));
                        assert(entry_views(out@.push(entry)) =~= entry_views(out@).push(entry@));
                        assert(entry_views(out@).push(entry@) =~= before + (entries_from(done, src)
                            + seq![entry@]));
                    }
                    out.push(entry);
                } else {
                    assert(before + (entries_from(done, src) + Seq::<HostEntryView>::empty())
                        =~= before + entries_from(done, src));
                }
            },
            ConfigElement::GlobalLine(_) => {
                assert(before + (entries_from(done, src) + Seq::<HostEntryView>::empty())
                    =~= before + entries_from(done, src));
            },
            ConfigElement::Include(inc) => {
                let mut j: usize = 0;
                let ghost files = inc.resolved_files@;
                proof {
                    assert(files.take(0) =~= Seq::<IncludedFile>::empty());
                    assert(before + entries_from(done, src) + files_entries(files.take(0))
                        =~= before + entries_from(done, src));
                }
                while j < inc.resolved_files.len()
                    invariant
                        j <= inc.resolved_files.len(),
                        i < elements.len(),
                        elements@[i as int] == ConfigElement::Include(*inc),
                        files == inc.resolved_files@,
                        entry_views(out@) == before + entries_from(done, src) + files_entries(
                            files.take(j as int),
                        ),
                    decreases inc.resolved_files.len() - j,
                {
                    let file = &inc.resolved_files[j];
                    proof {
                        assert(decreases_to!(elements => elements[i as int]));
                        assert(decreases_to!(elements[i as int] => elements[i as int]->Include_0));
                        assert(decreases_to!(inc.resolved_files => inc.resolved_files[j as int]));
                        let t = files.take(j as int + 1);
                        assert(t.drop_last() =~= files.take(j as int));
                        assert(t.last() == *file);
                    }
                    let ghost mid = entry_views(out@);
                    collect_host_entries(&file.elements, Some(&file.path), out);
                    proof {
                        let add = entries_from(file.elements@, Some(file.path@));
                        assert(before + entries_from(done, src) + files_entries(
                            files.take(j as int),
                        ) + add =~= before + entries_from(done, src) + (files_entries(
                            files.take(j as int),
                        ) + add));
                    }
                    j += 1;
                }
                proof {
                    assert(files.take(j as int) =~= files);
                    assert(before + entries_from(done, src) + files_entries(files) =~= before + (
                    entries_from(done, src) + files_entries(files)));
                }
            },
        }
        i += 1;
    }
    assert(elements@.take(i as int) =~= elements@);
}

/// Whether some stanza of `elements`, or of a file included from them, names `alias`.
fn has_host_in_elements(elements: &Vec<ConfigElement>, alias: &[char]) -> (r: bool)
    ensures
        r == has_host_in(elements@, alias@),
    decreases elements,
{
    let mut i: usize = 0;
    while i < elements.len()
        invariant
            i <= elements.len(),
            forall|k: int| 0 <= k < i ==> !element_has_host(#[trigger] elements@[k], alias@),
        decreases elements.len() - i,
    {
        match &elements[i] {
            ConfigElement::HostBlock(block) => {
                if pattern_names(block.host_pattern.as_str(), alias) {
                    assert(element_has_host(elements@[i as int], alias@));
                    return true;
                }
            },
            ConfigElement::GlobalLine(_) => {},
            ConfigElement::Include(inc) => {
                let mut j: usize = 0;
                while j < inc.resolved_files.len()
                    invariant
                        j <= inc.resolved_files.len(),
                        i < elements.len(),
                        elements@[i as int] == ConfigElement::Include(*inc),
                        forall|k: int|
                            0 <= k < j ==> !has_host_in(
                                (#[trigger] inc.resolved_files@[k]).elements@,
                                alias@,
                            ),
                    decreases inc.resolved_files.len() - j,
                {
                    proof {
                        assert(decreases_to!(elements => elements[i as int]));
                        assert(decreases_to!(elements[i as int] => elements[i as int]->Include_0));
                        assert(decreases_to!(inc.resolved_files => inc.resolved_files[j as int]));
                    }
                    if has_host_in_elements(&inc.resolved_files[j].elements, alias) {
                        assert(has_host_in(inc.resolved_files@[j as int].elements@, alias@));
                        assert(element_has_host(elements@[i as int], alias@));
                        return true;
                    }
                    j += 1;
                }
            },
        }
        i += 1;
    }
    false
}

/// Appends the paths of all files included from `elements` to `paths`.
fn collect_include_paths(elements: &Vec<ConfigElement>, paths: &mut Vec<String>)
    ensures
        strings(final(paths)@) == strings(old(paths)@) + paths_in(elements@),
    decreases elements,
{
    let ghost before = strings(paths@);
    let mut i: usize = 0;
    proof {
        assert(elements@.take(0) =~= Seq::<ConfigElement>::empty());
        assert(before + paths_in(elements@.take(0)) =~= before);
    }
    while i < elements.len()
        invariant
            i <= elements.len(),
            strings(paths@) == before + paths_in(elements@.take(i as int)),
        decreases elements.len() - i,
    {
        let ghost done = elements@.take(i as int);
        proof {
            let t = elements@.take(i as int + 1);
            assert(t.drop_last() =~= done);
            assert(t.last() == elements@[i as int]);
        }
        match &elements[i] {
            ConfigElement::Include(inc) => {
                let mut j: usize = 0;
                let ghost files = inc.resolved_files@;
                proof {
                    assert(files.take(0) =~= Seq::<IncludedFile>::empty());
                    assert(before + paths_in(done) + files_paths(files.take(0)) =~= before
                        + paths_in(done));
                }
                while j < inc.resolved_files.len()
                    invariant
                        j <= inc.resolved_files.len(),
                        i < elements.len(),
                        elements@[i as int] == ConfigElement::Include(*inc),
                        files == inc.resolved_files@,
                        strings(paths@) == before + paths_in(done) + files_paths(
                            files.take(j as int),
                        ),
                    decreases inc.resolved_files.len() - j,
                {
                    let file = &inc.resolved_files[j];
                    proof {
                        assert(decreases_to!(elements => elements[i as int]));
                        assert(decreases_to!(elements[i as int] => elements[i as int]->Include_0));
                        assert(decreases_to!(inc.resolved_files => inc.resolved_files[j as int]));
                        let t = files.take(j as int + 1);
                        assert(t.drop_last() =~= files.take(j as int));
                        assert(t.last() == *file);
                    }
                    let path = file.path.clone();
                    proof {
                        assert(strings(paths@.push(path)) =~= strings(paths@).push(path@));
                    }
                    paths.push(path);
                    collect_include_paths(&file.elements, paths);
                    proof {
                        let sofar = before + paths_in(done) + files_paths(files.take(j as int));
                        assert(sofar.push(file.path@) + paths_in(file.elements@) =~= before
                            + paths_in(done) + (files_paths(files.take(j as int)) + seq![
                            file.path@,
                        ] + paths_in(file.elements@)));
                    }
                    j += 1;
                }
                proof {
                    assert(files.take(j as int) =~= files);
                    assert(before + paths_in(done) + files_paths(files) =~= before + (paths_in(
                        done,
                    ) + files_paths(files)));
                }
            },
            _ => {
                assert(before + (paths_in(done) + Seq::<Seq<char>>::empty()) =~= before
                    + paths_in(done));
            },
        }
        i += 1;
    }
    assert(elements@.take(i as int) =~= elements@);
}

impl SshConfigFile {
    /// The host records of the document and of every file included from it.
    pub fn host_entries(&self) -> (entries: Vec<HostEntry>)
        ensures
            entry_views(entries@) == entries_from(self.elements@, None),
    {
        let mut entries: Vec<HostEntry> = Vec::new();
        collect_host_entries(&self.elements, None, &mut entries);
        assert(entry_views(Seq::<HostEntry>::empty()) + entries_from(self.elements@, None)
            =~= entries_from(self.elements@, None));
        entries
    }

    /// Whether some stanza of the document, or of a file included from it, names
    /// `alias` among the words of its pattern.
    pub fn has_host(&self, alias: &str) -> (r: bool)
        ensures
            r == has_host_in(self.elements@, alias@),
    {
        let a = chars_of(alias);
        has_host_in_elements(&self.elements, a.as_slice())
    }

    /// The paths of all included files, depth first.
    pub fn include_paths(&self) -> (paths: Vec<String>)
        ensures
            strings(paths@) == paths_in(self.elements@),
    {
        let mut paths: Vec<String> = Vec::new();
        collect_include_paths(&self.elements, &mut paths);
        assert(strings(Seq::<String>::empty()) + paths_in(self.elements@) =~= paths_in(
            self.elements@,
        ));
        paths
    }
}

} // verus!

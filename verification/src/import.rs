//! Importing hosts: lines of a `known_hosts` file, and adding many records to
//! a document without creating an alias twice.
use crate::number::{decimal, decimal_chars, is_digit, parse_u16, parsed_u16};
use crate::split::{split_whitespace, texts, words};
use crate::ssh_config::block::block_of;
use crate::ssh_config::model::{
    element_views, ConfigElement, ElementView, HostEntry, HostEntryView, SshConfigFile,
};
use crate::ssh_config::mutation::{separator, with_host};
use crate::ssh_config::projection::{hosts, lemma_hosts};
use crate::text::{
    chars_of, contains, find, index_of, lemma_index_of, str_eq, string_of, trimmed, CharSet,
};
use vstd::prelude::*;
use vstd::slice::slice_subrange;

verus! {

/// What stands before the first `sep` of `s`, or all of `s` without one.
pub open spec fn first_piece(s: Seq<char>, sep: char) -> Seq<char> {
    s.take(index_of(s, CharSet::Exactly(sep)))
}

/// Whether `alias` consists of digits and colons only, as a bare address does.
pub open spec fn numeric(alias: Seq<char>) -> bool {
    forall|i: int| 0 <= i < alias.len() ==> is_digit(#[trigger] alias[i]) || alias[i] == ':'
}

/// Host name and port of the first host of a `known_hosts` line: `[host]:port`
/// with a port of 22 where none can be read, or the host as it stands.
pub open spec fn known_host_address(host: Seq<char>) -> Option<(Seq<char>, u16)> {
    if host.len() > 0 && host[0] == '[' {
        let close = index_of(host, CharSet::Exactly(']'));
        if 0 <= close < host.len() {
            let port = if host.len() > close + 2 && host[close + 1] == ':' {
                match parsed_u16(host.skip(close + 2)) {
                    Some(p) => p,
                    None => 22u16,
                }
            } else {
                22u16
            };
            Some((host.subrange(1, close), port))
        } else {
            None
        }
    } else {
        Some((host, 22u16))
    }
}

/// The host record that a line of a `known_hosts` file gives.
///
/// The line needs two words. Its first word names the hosts, separated by
/// commas; the first of them counts. Marker lines (`@...`) and hashed hosts
/// (`|...`) give nothing. The alias is the host name up to its first dot; an
/// alias of digits and colons only, or with a wildcard, gives nothing.
pub open spec fn known_host(line: Seq<char>) -> Option<HostEntryView> {
    let parts = words(line);
    if parts.len() < 2 {
        None
    } else if parts[0].len() > 0 && (parts[0][0] == '@' || parts[0][0] == '|') {
        None
    } else {
        match known_host_address(first_piece(parts[0], ',')) {
            Some((hostname, port)) => {
                let alias = first_piece(hostname, '.');
                if hostname.len() == 0 || numeric(alias) || alias.contains('*') || alias.contains(
                    '?',
                ) {
                    None
                } else {
                    Some(
                        HostEntryView {
                            alias,
                            hostname,
                            user: Seq::empty(),
                            port,
                            identity_file: Seq::empty(),
                            proxy_jump: Seq::empty(),
                            source_file: None,
                            tags: Seq::empty(),
                        },
                    )
                }
            },
            None => None,
        }
    }
}

/// The alias `base` with the number `n` after a hyphen.
pub open spec fn candidate(base: Seq<char>, n: nat) -> Seq<char> {
    base + "-"@ + decimal(n)
}

/// The first of `base-n`, `base-(n+1)`, up to `base-99` that no host has, or
/// `base` if every one is taken.
pub open spec fn first_free(es: Seq<ElementView>, base: Seq<char>, n: nat) -> Seq<char>
    decreases 100 - n,
{
    if n > 99 {
        base
    } else if !hosts(es, candidate(base, n)) {
        candidate(base, n)
    } else {
        first_free(es, base, n + 1)
    }
}

/// An alias for a new host: `base` if no host has it, else the first free of
/// `base-2` to `base-99`, else `base` again.
pub open spec fn free_alias(es: Seq<ElementView>, base: Seq<char>) -> Seq<char> {
    if !hosts(es, base) {
        base
    } else {
        first_free(es, base, 2)
    }
}

/// How far an import has come.
pub ghost struct ImportState {
    pub elements: Seq<ElementView>,
    /// Whether the next stanza follows a group comment directly.
    pub first_in_group: bool,
    pub imported: nat,
    pub skipped: nat,
}

/// The state after one more record. A record whose alias is taken, with no
/// free alias left, is skipped. Any other is added under its free alias:
/// directly after the group comment if it is the first of a group, else as
/// `add_host` adds it.
pub open spec fn import_one(st: ImportState, e: HostEntryView) -> ImportState {
    let alias = free_alias(st.elements, e.alias);
    if alias == e.alias && hosts(st.elements, alias) {
        ImportState { skipped: st.skipped + 1, ..st }
    } else {
        let renamed = HostEntryView { alias, ..e };
        ImportState {
            elements: if st.first_in_group {
                st.elements.push(ElementView::HostBlock(block_of(renamed)))
            } else {
                with_host(st.elements, renamed)
            },
            first_in_group: false,
            imported: st.imported + 1,
            skipped: st.skipped,
        }
    }
}

/// The state after all of `entries`.
pub open spec fn import_all(st: ImportState, entries: Seq<HostEntryView>) -> ImportState
    decreases entries.len(),
{
    if entries.len() == 0 {
        st
    } else {
        import_one(import_all(st, entries.drop_last()), entries.last())
    }
}

/// The elements with the comment that heads a group, after an empty line where
/// the document does not end in a blank one. Without a group, or without
/// records, nothing is added.
pub open spec fn with_group_header(
    es: Seq<ElementView>,
    group: Option<Seq<char>>,
    count: nat,
) -> Seq<ElementView> {
    match group {
        Some(name) => if count > 0 {
            es + separator(es) + seq![ElementView::GlobalLine("# "@ + name)]
        } else {
            es
        },
        None => es,
    }
}

/// The outcome of importing `entries` into a document with the elements `es`.
pub open spec fn imported(
    es: Seq<ElementView>,
    entries: Seq<HostEntryView>,
    group: Option<Seq<char>>,
) -> ImportState {
    import_all(
        ImportState {
            elements: with_group_header(es, group, entries.len()),
            first_in_group: group is Some,
            imported: 0,
            skipped: 0,
        },
        entries,
    )
}

/// What stands before the first `sep` of `s`.
fn take_first_piece<'a>(s: &'a [char], sep: char) -> (r: &'a [char])
    ensures
        r@ == first_piece(s@, sep),
{
    let n = find(s, CharSet::Exactly(sep));
    slice_subrange(s, 0, n)
}

/// Whether `alias` consists of digits and colons only.
fn is_numeric(alias: &[char]) -> (r: bool)
    ensures
        r == numeric(alias@),
{
    let mut i: usize = 0;
    while i < alias.len()
        invariant
            i <= alias.len(),
            forall|k: int| 0 <= k < i ==> is_digit(#[trigger] alias@[k]) || alias@[k] == ':',
        decreases alias.len() - i,
    {
        let c = alias[i];
        if !(('0' <= c && c <= '9') || c == ':') {
            assert(!(is_digit(alias@[i as int]) || alias@[i as int] == ':'));
            return false;
        }
        i += 1;
    }
    true
}

/// The host record that a line of a `known_hosts` file gives.
pub fn parse_known_hosts_line(line: &str) -> (r: Option<HostEntry>)
    ensures
        match r {
            Some(entry) => known_host(line@) == Some(entry@),
            None => known_host(line@) is None,
        },
{
    let cs = chars_of(line);
    let parts = split_whitespace(cs.as_slice());
    if parts.len() < 2 {
        return None;
    }
    let first = parts[0].as_slice();
    assert(first@ == words(line@)[0]) by {
        assert(texts(parts@)[0] == parts@[0]@);
    }
    if first.len() > 0 && (first[0] == '@' || first[0] == '|') {
        return None;
    }
    let host = take_first_piece(first, ',');
    let (name, port): (&[char], u16) = if host.len() > 0 && host[0] == '[' {
        let close = find(host, CharSet::Exactly(']'));
        if close >= host.len() {
            return None;
        }
        proof {
            lemma_index_of(host@, CharSet::Exactly(']'));
        }
        let port = if host.len() - close > 2 && host[close + 1] == ':' {
            match parse_u16(slice_subrange(host, close + 2, host.len())) {
                Some(p) => p,
                None => 22,
            }
        } else {
            22
        };
        (slice_subrange(host, 1, close), port)
    } else {
        (host, 22)
    };
    if name.len() == 0 {
        return None;
    }
    let alias = take_first_piece(name, '.');
    proof {
        assert forall|c: char| alias@.contains(c) <==> exists|i: int|
            0 <= i < alias@.len() && CharSet::Exactly(c).has(#[trigger] alias@[i]) by {
            if alias@.contains(c) {
                let i = choose|i: int| 0 <= i < alias@.len() && alias@[i] == c;
                assert(CharSet::Exactly(c).has(alias@[i]));
            }
        }
    }
    if is_numeric(alias) || contains(alias, CharSet::Exactly('*')) || contains(
        alias,
        CharSet::Exactly('?'),
    ) {
        return None;
    }
    let entry = HostEntry {
        alias: string_of(alias),
        hostname: string_of(name),
        user: String::new(),
        port,
        identity_file: String::new(),
        proxy_jump: String::new(),
        source_file: None,
        tags: Vec::new(),
    };
    proof {
        assert(entry@.tags =~= Seq::<Seq<char>>::empty());
    }
    Some(entry)
}

/// An alias for a new host that the document does not have yet, if there is
/// one among `base` and `base-2` to `base-99`; `base` otherwise.
pub fn deduplicate_alias(config: &SshConfigFile, base: &str) -> (alias: String)
    ensures
        alias@ == free_alias(element_views(config.elements@), base@),
{
    let ghost es = element_views(config.elements@);
    proof {
        lemma_hosts(config.elements@, base@);
    }
    if !config.has_host(base) {
        return String::from_str(base);
    }
    let mut n: u64 = 2;
    while n <= 99
        invariant
            2 <= n <= 100,
            es == element_views(config.elements@),
            hosts(es, base@),
            first_free(es, base@, 2) == first_free(es, base@, n as nat),
        decreases 100 - n,
    {
        let mut name = String::from_str(base);
        name.append("-");
        let number = string_of(decimal_chars(n).as_slice());
        name.append(number.as_str());
        proof {
            lemma_hosts(config.elements@, name@);
            assert(name@ == candidate(base@, n as nat));
        }
        if !config.has_host(name.as_str()) {
            return name;
        }
        n += 1;
    }
    String::from_str(base)
}

/// A copy of `entry` under another alias, without tags and source.
fn renamed(entry: &HostEntry, alias: String) -> (r: HostEntry)
    ensures
        block_of(r@) == block_of(HostEntryView { alias: alias@, ..entry@ }),
{
    HostEntry {
        alias,
        hostname: entry.hostname.clone(),
        user: entry.user.clone(),
        port: entry.port,
        identity_file: entry.identity_file.clone(),
        proxy_jump: entry.proxy_jump.clone(),
        source_file: None,
        tags: Vec::new(),
    }
}

/// The text of an optional group name.
pub open spec fn group_text(group: Option<&str>) -> Option<Seq<char>> {
    match group {
        Some(g) => Some(g@),
        None => None,
    }
}

/// Adds `entries` to the document and returns how many were added and how many
/// skipped. With a group, a comment with its name heads the new stanzas. A
/// record whose alias is taken is added under the next free alias, and skipped
/// if none is free. The result is never an error.
pub fn add_entries(config: &mut SshConfigFile, entries: &[HostEntry], group: Option<&str>) -> (r:
    Result<(usize, usize), String>)
    ensures
        final(config).path == old(config).path,
        final(config).crlf == old(config).crlf,
        ({
            let out = imported(
                element_views(old(config).elements@),
                crate::ssh_config::model::entry_views(entries@),
                group_text(group),
            );
            &&& r is Ok
            &&& r->Ok_0.0 == out.imported
            &&& r->Ok_0.1 == out.skipped
            &&& element_views(final(config).elements@) == out.elements
        }),
{
    let ghost es0 = element_views(config.elements@);
    let ghost all = crate::ssh_config::model::entry_views(entries@);
    let ghost start = ImportState {
        elements: with_group_header(es0, group_text(group), all.len()),
        first_in_group: group is Some,
        imported: 0,
        skipped: 0,
    };
    let mut imported: usize = 0;
    let mut skipped: usize = 0;
    let mut first_in_group = group.is_some();
    if let Some(group_name) = group {
        if entries.len() > 0 {
            if !config.elements.is_empty() && !config.last_element_has_trailing_blank() {
                config.elements.push(ConfigElement::GlobalLine(String::new()));
            }
            let mut header = String::from_str("# ");
            header.append(group_name);
            config.elements.push(ConfigElement::GlobalLine(header));
        }
    }
    proof {
        assert(element_views(config.elements@) =~= start.elements);
        assert(all.take(0) =~= Seq::<HostEntryView>::empty());
    }
    let mut i: usize = 0;
    while i < entries.len()
        invariant
            i <= entries.len(),
            config.path == old(config).path,
            config.crlf == old(config).crlf,
            all == crate::ssh_config::model::entry_views(entries@),
            imported + skipped == i,
            import_all(start, all.take(i as int)) == (ImportState {
                elements: element_views(config.elements@),
                first_in_group,
                imported: imported as nat,
                skipped: skipped as nat,
            }),
        decreases entries.len() - i,
    {
        let entry = &entries[i];
        let ghost st = import_all(start, all.take(i as int));
        proof {
            let t = all.take(i as int + 1);
            assert(t.drop_last() =~= all.take(i as int));
            assert(t.last() == entry@);
        }
        let alias = deduplicate_alias(config, entry.alias.as_str());
        proof {
            lemma_hosts(config.elements@, alias@);
        }
        if str_eq(alias.as_str(), entry.alias.as_str()) && config.has_host(alias.as_str()) {
            skipped += 1;
        } else {
            let deduped = renamed(entry, alias);
            if first_in_group {
                let block = SshConfigFile::entry_to_block(&deduped);
                proof {
                    assert(element_views(config.elements@.push(ConfigElement::HostBlock(block)))
                        =~= element_views(config.elements@).push(
                        ElementView::HostBlock(block@),
                    ));
                }
                config.elements.push(ConfigElement::HostBlock(block));
                first_in_group = false;
            } else {
                config.add_host(&deduped);
                proof {
                    let es = st.elements;
                    assert(with_host(es, deduped@) == with_host(
                        es,
                        HostEntryView { alias: alias@, ..entry@ },
                    ));
                }
            }
            imported += 1;
        }
        i += 1;
    }
    proof {
        assert(all.take(i as int) =~= all);
    }
    Ok((imported, skipped))
}

/// Whether a line of an import file says anything: it is not blank and no
/// comment.
pub open spec fn meaningful(line: Seq<char>) -> bool {
    trimmed(line).len() > 0 && trimmed(line)[0] != '#'
}

/// The alias that stands for a host name: the name up to its first dot.
pub open spec fn alias_for(hostname: Seq<char>) -> Seq<char> {
    first_piece(hostname, '.')
}

/// The host record that a line of an import file gives: the target on the
/// line, under the alias that stands for its host name.
pub open spec fn imported_host(line: Seq<char>) -> Option<HostEntryView> {
    match crate::quick_add::target_of(trimmed(line)) {
        Ok(t) => Some(
            HostEntryView {
                alias: alias_for(t.hostname),
                hostname: t.hostname,
                user: t.user,
                port: t.port,
                identity_file: Seq::empty(),
                proxy_jump: Seq::empty(),
                source_file: None,
                tags: Seq::empty(),
            },
        ),
        Err(_) => None,
    }
}

/// Whether a line of an import file says anything.
pub fn is_meaningful_line(line: &str) -> (r: bool)
    ensures
        r == meaningful(line@),
{
    let cs = chars_of(line);
    let t = crate::text::trim(cs.as_slice());
    t.len() > 0 && t[0] != '#'
}

/// The alias that stands for a host name.
pub fn alias_of_hostname(hostname: &str) -> (alias: String)
    ensures
        alias@ == alias_for(hostname@),
{
    let cs = chars_of(hostname);
    string_of(take_first_piece(cs.as_slice(), '.'))
}

/// The host record that a line of an import file gives.
pub fn parse_import_line(line: &str) -> (r: Option<HostEntry>)
    ensures
        match r {
            Some(entry) => imported_host(line@) == Some(entry@),
            None => imported_host(line@) is None,
        },
{
    let target = crate::state::trimmed_string(line);
    match crate::quick_add::parse_target(target.as_str()) {
        Ok(parsed) => {
            let entry = HostEntry {
                alias: alias_of_hostname(parsed.hostname.as_str()),
                hostname: parsed.hostname,
                user: parsed.user,
                port: parsed.port,
                identity_file: String::new(),
                proxy_jump: String::new(),
                source_file: None,
                tags: Vec::new(),
            };
            proof {
                assert(entry@.tags =~= Seq::<Seq<char>>::empty());
            }
            Some(entry)
        },
        Err(_) => None,
    }
}

} // verus!

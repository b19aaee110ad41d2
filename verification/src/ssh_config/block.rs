//! Editing one stanza: indentation, trailing blank lines, directives and tags.
use crate::number::{decimal, decimal_chars};
use crate::split::{join, lemma_join_push, strings};
use crate::ssh_config::model::{
    copy_directive, directive_views, Directive, DirectiveView, HostBlock, HostBlockView,
    HostEntry, HostEntryView,
};
use crate::ssh_config::projection::has_key;
use crate::text::{
    chars_of, eq_ignore_case, leading_whitespace, lemma_leading_whitespace, starts_with, string_of,
    trim, trim_start, trimmed,
};
use vstd::prelude::*;
use vstd::slice::slice_subrange;

verus! {

/// Whether `d` is a blank line of a stanza.
pub open spec fn blank(d: DirectiveView) -> bool {
    d.is_non_directive && trimmed(d.raw_line).len() == 0
}

/// The empty line that separates a stanza from what follows.
pub open spec fn empty_line() -> DirectiveView {
    DirectiveView {
        key: Seq::empty(),
        value: Seq::empty(),
        raw_line: Seq::empty(),
        is_non_directive: true,
    }
}

/// Where the trailing run of blank lines begins: everything before this
/// position is content.
pub open spec fn content_end(ds: Seq<DirectiveView>) -> nat
    decreases ds.len(),
{
    if ds.len() > 0 && blank(ds.last()) {
        content_end(ds.drop_last())
    } else {
        ds.len()
    }
}

/// The indentation of a stanza: the leading white space of its first indented
/// directive, two spaces if no directive is indented.
pub open spec fn indent_of(ds: Seq<DirectiveView>) -> Seq<char>
    decreases ds.len(),
{
    if ds.len() == 0 {
        "  "@
    } else if !ds[0].is_non_directive && leading_whitespace(ds[0].raw_line) > 0 {
        ds[0].raw_line.take(leading_whitespace(ds[0].raw_line) as int)
    } else {
        indent_of(ds.drop_first())
    }
}

/// The directives that `drop` does not hold of, in their order.
pub open spec fn retained(
    ds: Seq<DirectiveView>,
    drop: spec_fn(DirectiveView) -> bool,
) -> Seq<DirectiveView>
    decreases ds.len(),
{
    if ds.len() == 0 {
        ds
    } else {
        let before = retained(ds.drop_last(), drop);
        if drop(ds.last()) {
            before
        } else {
            before.push(ds.last())
        }
    }
}

/// The directives without those whose key is `key`.
pub open spec fn without_key(ds: Seq<DirectiveView>, key: Seq<char>) -> Seq<DirectiveView> {
    retained(ds, |d: DirectiveView| has_key(d, key))
}

/// Position of the first directive whose key is `key`, or `ds.len()`.
pub open spec fn key_position(ds: Seq<DirectiveView>, key: Seq<char>) -> int
    decreases ds.len(),
{
    if ds.len() == 0 || has_key(ds[0], key) {
        0
    } else {
        1 + key_position(ds.drop_first(), key)
    }
}

/// The line of a directive as the editor writes it.
pub open spec fn written_line(indent: Seq<char>, key: Seq<char>, value: Seq<char>) -> Seq<char> {
    indent + key + " "@ + value
}

/// A directive as the editor writes it.
pub open spec fn written(indent: Seq<char>, key: Seq<char>, value: Seq<char>) -> DirectiveView {
    DirectiveView {
        key,
        value,
        raw_line: written_line(indent, key, value),
        is_non_directive: false,
    }
}

/// The directives after `key` is set to `value`.
///
/// An empty value removes every directive with that key. Otherwise the first
/// directive with that key takes the value, and its line is rewritten only if
/// the value differs; without such a directive a new one is inserted before the
/// trailing blank lines.
pub open spec fn upserted(ds: Seq<DirectiveView>, key: Seq<char>, value: Seq<char>) -> Seq<
    DirectiveView,
> {
    let i = key_position(ds, key);
    if value.len() == 0 {
        without_key(ds, key)
    } else if 0 <= i < ds.len() {
        if ds[i].value == value {
            ds
        } else {
            ds.update(
                i,
                DirectiveView {
                    value,
                    raw_line: written_line(indent_of(ds), ds[i].key, value),
                    ..ds[i]
                },
            )
        }
    } else {
        ds.insert(content_end(ds) as int, written(indent_of(ds), key, value))
    }
}

/// The text that marks a tag comment, with or without tags after it.
pub open spec fn tag_prefix() -> Seq<char> {
    "# purple:tags"@
}

/// Whether `d` is a tag comment.
pub open spec fn is_tag_line(d: DirectiveView) -> bool {
    d.is_non_directive && tag_prefix().is_prefix_of(trimmed(d.raw_line))
}

/// The tag comment that lists `tags`.
pub open spec fn tag_line(indent: Seq<char>, tags: Seq<Seq<char>>) -> DirectiveView {
    DirectiveView {
        key: Seq::empty(),
        value: Seq::empty(),
        raw_line: indent + "# purple:tags "@ + join(tags, ","@),
        is_non_directive: true,
    }
}

/// The directives after the tags are set: every tag comment is removed, and if
/// there are tags, one comment that lists them is inserted before the trailing
/// blank lines.
pub open spec fn with_tags(ds: Seq<DirectiveView>, tags: Seq<Seq<char>>) -> Seq<DirectiveView> {
    let kept = retained(ds, |d: DirectiveView| is_tag_line(d));
    if tags.len() == 0 {
        kept
    } else {
        kept.insert(content_end(kept) as int, tag_line(indent_of(ds), tags))
    }
}

/// One directive of a new stanza if `value` is not empty, nothing otherwise.
pub open spec fn optional_line(key: Seq<char>, value: Seq<char>) -> Seq<DirectiveView> {
    if value.len() > 0 {
        seq![written("  "@, key, value)]
    } else {
        seq![]
    }
}

/// The stanza that is written for a host record: a directive for each field
/// that is not empty, and a port only if it is not 22.
pub open spec fn block_of(e: HostEntryView) -> HostBlockView {
    HostBlockView {
        host_pattern: e.alias,
        raw_host_line: "Host "@ + e.alias,
        directives: optional_line("HostName"@, e.hostname) + optional_line("User"@, e.user) + (
        if e.port != 22 {
            seq![written("  "@, "Port"@, decimal(e.port as nat))]
        } else {
            seq![]
        }) + optional_line("IdentityFile"@, e.identity_file) + optional_line(
            "ProxyJump"@,
            e.proxy_jump,
        ),
    }
}

/// The stanza after an edit with the record `e`: the pattern and the `Host` line
/// are rewritten, then each known key is set in turn. A port of 22 removes the
/// `Port` directive.
pub open spec fn updated_block(b: HostBlockView, e: HostEntryView) -> HostBlockView {
    let d1 = upserted(b.directives, "HostName"@, e.hostname);
    let d2 = upserted(d1, "User"@, e.user);
    let d3 = if e.port != 22 {
        upserted(d2, "Port"@, decimal(e.port as nat))
    } else {
        without_key(d2, "Port"@)
    };
    let d4 = upserted(d3, "IdentityFile"@, e.identity_file);
    let d5 = upserted(d4, "ProxyJump"@, e.proxy_jump);
    HostBlockView { host_pattern: e.alias, raw_host_line: "Host "@ + e.alias, directives: d5 }
}

/// `content_end` is determined by the last directive that is not blank.
pub proof fn lemma_content_end_is(ds: Seq<DirectiveView>, n: int)
    requires
        0 <= n <= ds.len(),
        forall|i: int| n <= i < ds.len() ==> blank(#[trigger] ds[i]),
        n > 0 ==> !blank(ds[n - 1]),
    ensures
        content_end(ds) == n,
    decreases ds.len(),
{
    if n < ds.len() {
        let t = ds.drop_last();
        assert(blank(ds[ds.len() - 1]));
        assert forall|i: int| n <= i < t.len() implies blank(#[trigger] t[i]) by {
            assert(t[i] == ds[i]);
        }
        if n > 0 {
            assert(t[n - 1] == ds[n - 1]);
        }
        lemma_content_end_is(t, n);
    }
}

/// What `content_end` separates: blank lines after it, content just before it.
pub proof fn lemma_content_end(ds: Seq<DirectiveView>)
    ensures
        content_end(ds) <= ds.len(),
        forall|i: int| content_end(ds) <= i < ds.len() ==> blank(#[trigger] ds[i]),
        content_end(ds) > 0 ==> !blank(ds[content_end(ds) - 1]),
    decreases ds.len(),
{
    if ds.len() > 0 && blank(ds.last()) {
        let t = ds.drop_last();
        lemma_content_end(t);
        assert forall|i: int| content_end(ds) <= i < ds.len() implies blank(#[trigger] ds[i]) by {
            if i < ds.len() - 1 {
                assert(ds[i] == t[i]);
            }
        }
        if content_end(ds) > 0 {
            assert(ds[content_end(ds) - 1] == t[content_end(t) - 1]);
        }
    }
}

/// `key_position` is determined by the first directive with the key.
pub proof fn lemma_key_position_is(ds: Seq<DirectiveView>, key: Seq<char>, n: int)
    requires
        0 <= n <= ds.len(),
        forall|i: int| 0 <= i < n ==> !has_key(#[trigger] ds[i], key),
        n < ds.len() ==> has_key(ds[n], key),
    ensures
        key_position(ds, key) == n,
    decreases ds.len(),
{
    if n > 0 {
        let t = ds.drop_first();
        assert(!has_key(ds[0], key));
        assert forall|i: int| 0 <= i < n - 1 implies !has_key(#[trigger] t[i], key) by {
            assert(t[i] == ds[i + 1]);
        }
        lemma_key_position_is(t, key, n - 1);
    }
}

/// Whether `s` is blank: empty or white space only.
pub fn is_blank(s: &str) -> (r: bool)
    ensures
        r == (trimmed(s@).len() == 0),
{
    let cs = chars_of(s);
    trim(cs.as_slice()).len() == 0
}

/// The text `indent`, `key`, a space and `value` in one string.
fn write_line(indent: &str, key: &str, value: &str) -> (line: String)
    ensures
        line@ == written_line(indent@, key@, value@),
{
    let mut line = String::from_str(indent);
    line.append(key);
    line.append(" ");
    line.append(value);
    line
}

/// A directive as the editor writes it.
fn write_directive(indent: &str, key: &str, value: &str) -> (d: Directive)
    ensures
        d@ == written(indent@, key@, value@),
{
    Directive {
        key: String::from_str(key),
        value: String::from_str(value),
        raw_line: write_line(indent, key, value),
        is_non_directive: false,
    }
}

impl HostBlock {
    /// Where the trailing run of blank lines begins.
    pub fn content_end(&self) -> (pos: usize)
        ensures
            pos == content_end(self@.directives),
            pos <= self.directives.len(),
    {
        let mut pos: usize = self.directives.len();
        while pos > 0 && self.directives[pos - 1].is_non_directive && is_blank(
            self.directives[pos - 1].raw_line.as_str(),
        )
            invariant
                pos <= self.directives.len(),
                forall|i: int|
                    pos <= i < self.directives.len() ==> blank(#[trigger] self@.directives[i]),
            decreases pos,
        {
            pos -= 1;
        }
        proof {
            lemma_content_end_is(self@.directives, pos as int);
        }
        pos
    }

    /// Removes the trailing blank lines and returns them.
    pub fn pop_trailing_blanks(&mut self) -> (popped: Vec<Directive>)
        ensures
            final(self)@.host_pattern == old(self)@.host_pattern,
            final(self)@.raw_host_line == old(self)@.raw_host_line,
            final(self)@.directives == old(self)@.directives.take(
                content_end(old(self)@.directives) as int,
            ),
            directive_views(popped@) == old(self)@.directives.skip(
                content_end(old(self)@.directives) as int,
            ),
    {
        let end = self.content_end();
        let ghost ds = self@.directives;
        let mut reversed: Vec<Directive> = Vec::new();
        while self.directives.len() > end
            invariant
                end <= self.directives.len() <= ds.len(),
                self@.host_pattern == old(self)@.host_pattern,
                self@.raw_host_line == old(self)@.raw_host_line,
                ds == old(self)@.directives,
                self@.directives == ds.take(self.directives.len() as int),
                reversed@.len() == ds.len() - self.directives.len(),
                forall|k: int|
                    0 <= k < reversed@.len() ==> (#[trigger] reversed@[k])@ == ds[ds.len() - 1 - k],
            decreases self.directives.len(),
        {
            let ghost n = self.directives.len();
            let d = self.directives.pop().unwrap();
            proof {
                assert(d@ == ds.take(n as int)[n - 1]);
                assert(self@.directives =~= ds.take(n - 1));
            }
            reversed.push(d);
        }
        let mut popped: Vec<Directive> = Vec::new();
        while reversed.len() > 0
            invariant
                popped@.len() + reversed@.len() == ds.len() - end,
                forall|k: int|
                    0 <= k < reversed@.len() ==> (#[trigger] reversed@[k])@ == ds[ds.len() - 1 - k],
                forall|k: int| 0 <= k < popped@.len() ==> (#[trigger] popped@[k])@ == ds[end + k],
            decreases reversed.len(),
        {
            let ghost m = reversed@.len();
            let d = reversed.pop().unwrap();
            proof {
                assert(d@ == ds[ds.len() - 1 - (m - 1)]);
            }
            popped.push(d);
        }
        proof {
            assert(directive_views(popped@) =~= ds.skip(end as int));
        }
        popped
    }

    /// Leaves exactly one empty line at the end of the stanza.
    pub fn ensure_trailing_blank(&mut self)
        ensures
            final(self)@.host_pattern == old(self)@.host_pattern,
            final(self)@.raw_host_line == old(self)@.raw_host_line,
            final(self)@.directives == old(self)@.directives.take(
                content_end(old(self)@.directives) as int,
            ).push(empty_line()),
    {
        let _ = self.pop_trailing_blanks();
        let d = Directive {
            key: String::new(),
            value: String::new(),
            raw_line: String::new(),
            is_non_directive: true,
        };
        proof {
            assert(directive_views(self.directives@.push(d)) =~= directive_views(
                self.directives@,
            ).push(d@));
        }
        self.directives.push(d);
    }

    /// The indentation that the directives of the stanza use.
    pub fn detect_indent(&self) -> (indent: String)
        ensures
            indent@ == indent_of(self@.directives),
    {
        let ghost ds = self@.directives;
        let mut i: usize = 0;
        assert(ds.skip(0) =~= ds);
        while i < self.directives.len()
            invariant
                i <= self.directives.len(),
                ds == self@.directives,
                indent_of(ds) == indent_of(ds.skip(i as int)),
            decreases self.directives.len() - i,
        {
            let d = &self.directives[i];
            proof {
                assert(ds.skip(i as int)[0] == d@);
                assert(ds.skip(i as int).drop_first() =~= ds.skip(i as int + 1));
            }
            if !d.is_non_directive {
                let raw = chars_of(d.raw_line.as_str());
                let rest = trim_start(raw.as_slice());
                proof {
                    lemma_leading_whitespace(raw@);
                }
                let n = raw.len() - rest.len();
                if n > 0 {
                    return string_of(slice_subrange(raw.as_slice(), 0, n));
                }
            }
            i += 1;
        }
        String::from_str("  ")
    }
}

/// A copy of `directives` without those whose key is `key`.
fn remove_key(directives: &Vec<Directive>, key: &[char]) -> (out: Vec<Directive>)
    ensures
        directive_views(out@) == without_key(directive_views(directives@), key@),
{
    let ghost ds = directive_views(directives@);
    let mut out: Vec<Directive> = Vec::new();
    let mut i: usize = 0;
    proof {
        assert(ds.take(0) =~= Seq::<DirectiveView>::empty());
        assert(directive_views(out@) =~= Seq::<DirectiveView>::empty());
    }
    while i < directives.len()
        invariant
            i <= directives.len(),
            ds == directive_views(directives@),
            directive_views(out@) == without_key(ds.take(i as int), key@),
        decreases directives.len() - i,
    {
        let d = &directives[i];
        proof {
            let t = ds.take(i as int + 1);
            assert(t.drop_last() =~= ds.take(i as int));
            assert(t.last() == d@);
        }
        let k = chars_of(d.key.as_str());
        if d.is_non_directive || !eq_ignore_case(k.as_slice(), key) {
            let c = copy_directive(d);
            proof {
                assert(directive_views(out@.push(c)) =~= directive_views(out@).push(c@));
            }
            out.push(c);
        }
        i += 1;
    }
    proof {
        assert(ds.take(i as int) =~= ds);
    }
    out
}

/// Whether `d` is a tag comment.
fn tag_line_found(d: &Directive) -> (r: bool)
    ensures
        r == is_tag_line(d@),
{
    if !d.is_non_directive {
        return false;
    }
    let raw = chars_of(d.raw_line.as_str());
    let prefix = chars_of("# purple:tags");
    starts_with(trim(raw.as_slice()), prefix.as_slice())
}

/// A copy of `directives` without the tag comments.
fn remove_tag_lines(directives: &Vec<Directive>) -> (out: Vec<Directive>)
    ensures
        directive_views(out@) == retained(
            directive_views(directives@),
            |d: DirectiveView| is_tag_line(d),
        ),
{
    let ghost ds = directive_views(directives@);
    let ghost drop = |d: DirectiveView| is_tag_line(d);
    let mut out: Vec<Directive> = Vec::new();
    let mut i: usize = 0;
    proof {
        assert(ds.take(0) =~= Seq::<DirectiveView>::empty());
        assert(directive_views(out@) =~= Seq::<DirectiveView>::empty());
    }
    while i < directives.len()
        invariant
            i <= directives.len(),
            ds == directive_views(directives@),
            drop == |d: DirectiveView| is_tag_line(d),
            directive_views(out@) == retained(ds.take(i as int), drop),
        decreases directives.len() - i,
    {
        let d = &directives[i];
        proof {
            let t = ds.take(i as int + 1);
            assert(t.drop_last() =~= ds.take(i as int));
            assert(t.last() == d@);
        }
        if !tag_line_found(d) {
            let c = copy_directive(d);
            proof {
                assert(directive_views(out@.push(c)) =~= directive_views(out@).push(c@));
            }
            out.push(c);
        }
        i += 1;
    }
    proof {
        assert(ds.take(i as int) =~= ds);
    }
    out
}

/// The tags with a comma between each two neighbours.
fn join_tags(tags: &[String]) -> (out: String)
    ensures
        out@ == join(strings(tags@), ","@),
{
    let ghost all = strings(tags@);
    let mut out = String::new();
    let mut i: usize = 0;
    proof {
        assert(all.take(0) =~= Seq::<Seq<char>>::empty());
    }
    while i < tags.len()
        invariant
            i <= tags.len(),
            all == strings(tags@),
            out@ == join(all.take(i as int), ","@),
        decreases tags.len() - i,
    {
        proof {
            lemma_join_push(all.take(i as int), ","@, tags@[i as int]@);
            assert(all.take(i as int + 1) =~= all.take(i as int).push(tags@[i as int]@));
        }
        if i > 0 {
            out.append(",");
        }
        out.append(tags[i].as_str());
        proof {
            if i == 0 {
                assert(Seq::<char>::empty() + tags@[i as int]@ =~= tags@[i as int]@);
            }
        }
        i += 1;
    }
    proof {
        assert(all.take(i as int) =~= all);
    }
    out
}

impl HostBlock {
    /// Replaces the tags of the stanza.
    pub fn set_tags(&mut self, tags: &[String])
        ensures
            final(self)@.host_pattern == old(self)@.host_pattern,
            final(self)@.raw_host_line == old(self)@.raw_host_line,
            final(self)@.directives == with_tags(old(self)@.directives, strings(tags@)),
    {
        let indent = self.detect_indent();
        self.directives = remove_tag_lines(&self.directives);
        if tags.len() > 0 {
            let pos = self.content_end();
            let mut raw_line = indent;
            raw_line.append("# purple:tags ");
            let listed = join_tags(tags);
            raw_line.append(listed.as_str());
            let d = Directive {
                key: String::new(),
                value: String::new(),
                raw_line,
                is_non_directive: true,
            };
            proof {
                assert(directive_views(self.directives@.insert(pos as int, d))
                    =~= directive_views(self.directives@).insert(pos as int, d@));
            }
            self.directives.insert(pos, d);
        }
    }

    /// Sets `key` to `value` in the stanza: changes the first directive with
    /// that key, inserts one if there is none, removes all if `value` is empty.
    pub fn upsert_directive(&mut self, key: &str, value: &str)
        ensures
            final(self)@.host_pattern == old(self)@.host_pattern,
            final(self)@.raw_host_line == old(self)@.raw_host_line,
            final(self)@.directives == upserted(old(self)@.directives, key@, value@),
    {
        let k = chars_of(key);
        if value.is_empty() {
            self.directives = remove_key(&self.directives, k.as_slice());
            return ;
        }
        let indent = self.detect_indent();
        let ghost ds = self@.directives;
        let mut i: usize = 0;
        while i < self.directives.len()
            invariant
                i <= self.directives.len(),
                ds == self@.directives,
                self@ == old(self)@,
                k@ == key@,
                value@.len() > 0,
                indent@ == indent_of(ds),
                forall|j: int| 0 <= j < i ==> !has_key(#[trigger] ds[j], key@),
            decreases self.directives.len() - i,
        {
            let d = &self.directives[i];
            let dk = chars_of(d.key.as_str());
            if !d.is_non_directive && eq_ignore_case(dk.as_slice(), k.as_slice()) {
                proof {
                    assert(has_key(ds[i as int], key@));
                    lemma_key_position_is(ds, key@, i as int);
                }
                if !crate::text::str_eq(d.value.as_str(), value) {
                    let changed = Directive {
                        key: d.key.clone(),
                        value: String::from_str(value),
                        raw_line: write_line(indent.as_str(), d.key.as_str(), value),
                        is_non_directive: false,
                    };
                    proof {
                        assert(directive_views(self.directives@.update(i as int, changed))
                            =~= ds.update(i as int, changed@));
                    }
                    self.directives.set(i, changed);
                }
                return ;
            }
            i += 1;
        }
        proof {
            lemma_key_position_is(ds, key@, ds.len() as int);
        }
        let pos = self.content_end();
        let d = write_directive(indent.as_str(), key, value);
        proof {
            assert(directive_views(self.directives@.insert(pos as int, d)) =~= ds.insert(
                pos as int,
                d@,
            ));
        }
        self.directives.insert(pos, d);
    }
}

/// Appends the directive for `key` to a new stanza if `value` is not empty.
fn push_optional(directives: &mut Vec<Directive>, key: &str, value: &str)
    ensures
        directive_views(final(directives)@) == directive_views(old(directives)@) + optional_line(
            key@,
            value@,
        ),
{
    if !value.is_empty() {
        let d = write_directive("  ", key, value);
        proof {
            assert(directive_views(directives@.push(d)) =~= directive_views(directives@) + seq![
                d@,
            ]);
        }
        directives.push(d);
    } else {
        assert(directive_views(directives@) + Seq::<DirectiveView>::empty() =~= directive_views(
            directives@,
        ));
    }
}

impl crate::ssh_config::model::SshConfigFile {
    /// The stanza that is written for a host record.
    pub fn entry_to_block(entry: &HostEntry) -> (block: HostBlock)
        ensures
            block@ == block_of(entry@),
    {
        let mut directives: Vec<Directive> = Vec::new();
        let ghost e = entry@;
        proof {
            assert(directive_views(directives@) =~= Seq::<DirectiveView>::empty());
        }
        push_optional(&mut directives, "HostName", entry.hostname.as_str());
        push_optional(&mut directives, "User", entry.user.as_str());
        if entry.port != 22 {
            let port = string_of(decimal_chars(entry.port as u64).as_slice());
            let d = write_directive("  ", "Port", port.as_str());
            proof {
                assert(directive_views(directives@.push(d)) =~= directive_views(directives@)
                    + seq![d@]);
            }
            directives.push(d);
        } else {
            assert(directive_views(directives@) + Seq::<DirectiveView>::empty()
                =~= directive_views(directives@));
        }
        push_optional(&mut directives, "IdentityFile", entry.identity_file.as_str());
        push_optional(&mut directives, "ProxyJump", entry.proxy_jump.as_str());
        let mut raw_host_line = String::from_str("Host ");
        raw_host_line.append(entry.alias.as_str());
        proof {
            assert(directive_views(directives@) =~= block_of(e).directives);
        }
        HostBlock { host_pattern: entry.alias.clone(), raw_host_line, directives }
    }
}

} // verus!

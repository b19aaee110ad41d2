//! What the edits of a document guarantee, beyond the contract of each.
use crate::split::{join, lemma_split_of_join, words};
use crate::ssh_config::block::{
    block_of, content_end, indent_of, is_tag_line, lemma_content_end, optional_line, retained,
    tag_line, tag_prefix, updated_block, upserted, with_tags, without_key, written, written_line,
};
use crate::ssh_config::model::{
    element_views, ConfigElement, DirectiveView, ElementView, HostBlockView, HostEntryView,
};
use crate::ssh_config::mutation::{
    blank_global, host_position, is_host, pruned, separator, with_host,
};
use crate::ssh_config::projection::{
    element_has_host, has_host_in, has_key, kept_tags, line_tags, names, tag_marker, tags_of,
};
use crate::ssh_config::writer::{document_lines, element_lines, serialized};
use crate::text::{
    leading_whitespace, lemma_index_of_is, lemma_leading_whitespace, lemma_leading_whitespace_is,
    lemma_trailing_whitespace_is, same_ignoring_case, trimmed, trimmed_start, whitespace, CharSet,
};
use vstd::prelude::*;

verus! {

/// Whether `s` is one word: not empty, and without white space.
pub open spec fn single_word(s: Seq<char>) -> bool {
    s.len() > 0 && forall|i: int| 0 <= i < s.len() ==> !whitespace(#[trigger] s[i])
}

/// Whether `d` is a directive with one of the keys that an edit writes.
pub open spec fn known(d: DirectiveView) -> bool {
    has_key(d, "HostName"@) || has_key(d, "User"@) || has_key(d, "Port"@) || has_key(
        d,
        "IdentityFile"@,
    ) || has_key(d, "ProxyJump"@)
}

/// Whether `t` can stand in a tag comment as it is: not empty, no white space
/// at either end, no comma.
pub open spec fn plain_tag(t: Seq<char>) -> bool {
    t.len() > 0 && !whitespace(t[0]) && !whitespace(t.last()) && !t.contains(',')
}

/// A single word is the only word of itself.
pub proof fn lemma_words_of_single(s: Seq<char>)
    requires
        single_word(s),
    ensures
        words(s) == seq![s],
{
    let set = CharSet::Whitespace;
    assert forall|i: int| 0 <= i < s.len() implies !set.has(#[trigger] s[i]) by {
        assert(!whitespace(s[i]));
    }
    lemma_index_of_is(s, set, s.len() as int);
    assert(!whitespace(s[0]));
    assert(s.take(s.len() as int) =~= s);
    assert(s.skip(s.len() as int).len() == 0);
    assert(words(s.skip(s.len() as int)) =~= Seq::<Seq<char>>::empty());
    assert(words(s) =~= seq![s]);
}

/// The lines of two runs of elements, one after the other.
pub proof fn lemma_document_lines_add(a: Seq<ElementView>, b: Seq<ElementView>)
    ensures
        document_lines(a + b) == document_lines(a) + document_lines(b),
    decreases b.len(),
{
    if b.len() == 0 {
        assert(a + b =~= a);
        assert(document_lines(a) + document_lines(b) =~= document_lines(a));
    } else {
        lemma_document_lines_add(a, b.drop_last());
        assert((a + b).drop_last() =~= a + b.drop_last());
        assert((a + b).last() == b.last());
        assert(document_lines(a + b) =~= document_lines(a) + document_lines(b));
    }
}

/// After a host is added it is found, and the text grows by its stanza.
///
/// For a record whose alias is a single word: once the document holds the
/// stanza that `add_host` appends, `has_host` finds the alias. The lines of the
/// document are those from before, an empty line where one was needed, and the
/// lines of the new stanza. Among these is the `HostName` line with the record's
/// host name if it has one, and a `Port` directive exactly if the port is not 22.
pub proof fn added_host_is_found(
    before: Seq<ConfigElement>,
    after: Seq<ConfigElement>,
    entry: HostEntryView,
)
    requires
        single_word(entry.alias),
        element_views(after) == with_host(element_views(before), entry),
    ensures
        has_host_in(after, entry.alias),
        document_lines(element_views(after)) == document_lines(element_views(before))
            + document_lines(separator(element_views(before))) + element_lines(
            ElementView::HostBlock(block_of(entry)),
        ),
        entry.hostname.len() > 0 ==> element_lines(
            ElementView::HostBlock(block_of(entry)),
        ).contains(written_line("  "@, "HostName"@, entry.hostname)),
        (exists|i: int|
            0 <= i < block_of(entry).directives.len() && has_key(
                #[trigger] block_of(entry).directives[i],
                "Port"@,
            )) <==> entry.port != 22,
{
    let es = element_views(before);
    let stanza = ElementView::HostBlock(block_of(entry));
    let last = after.len() - 1;
    assert(element_views(after).len() == after.len());
    assert(after[last]@ == with_host(es, entry)[last]);
    assert(after[last]@ == stanza);
    lemma_words_of_single(entry.alias);
    assert(words(entry.alias)[0] == entry.alias);
    assert(names(entry.alias, entry.alias));
    assert(element_has_host(after[last], entry.alias));
    lemma_document_lines_add(es + separator(es), seq![stanza]);
    lemma_document_lines_add(es, separator(es));
    crate::ssh_config::fidelity::lemma_document_lines_push(Seq::empty(), stanza);
    assert(Seq::<ElementView>::empty().push(stanza) =~= seq![stanza]);
    assert(document_lines(seq![stanza]) =~= element_lines(stanza));
    let ds = block_of(entry).directives;
    let lines = element_lines(stanza);
    if entry.hostname.len() > 0 {
        assert(ds[0] == written("  "@, "HostName"@, entry.hostname));
        assert(lines[1] == written_line("  "@, "HostName"@, entry.hostname));
    }
    lemma_known_keys_differ();
    let a = optional_line("HostName"@, entry.hostname);
    let b = optional_line("User"@, entry.user);
    let c = optional_line("IdentityFile"@, entry.identity_file);
    let d = optional_line("ProxyJump"@, entry.proxy_jump);
    if entry.port != 22 {
        let p = written("  "@, "Port"@, crate::number::decimal(entry.port as nat));
        assert(ds =~= a + b + seq![p] + c + d);
        let at = (a.len() + b.len()) as int;
        assert(ds[at] == p);
        assert(has_key(ds[at], "Port"@));
    } else {
        assert(ds =~= a + b + Seq::<DirectiveView>::empty() + c + d);
        assert forall|i: int| 0 <= i < ds.len() implies !has_key(#[trigger] ds[i], "Port"@) by {
            if i < a.len() {
                assert(ds[i] == a[i]);
            } else if i < a.len() + b.len() {
                assert(ds[i] == b[i - a.len()]);
            } else if i < a.len() + b.len() + c.len() {
                assert(ds[i] == c[i - a.len() - b.len()]);
            } else {
                assert(ds[i] == d[i - a.len() - b.len() - c.len()]);
            }
        }
    }
}

/// The keys that an edit writes differ from `Port` even up to case, and each
/// equals itself.
proof fn lemma_known_keys_differ()
    ensures
        !same_ignoring_case("HostName"@, "Port"@),
        !same_ignoring_case("User"@, "Port"@),
        !same_ignoring_case("IdentityFile"@, "Port"@),
        !same_ignoring_case("ProxyJump"@, "Port"@),
        same_ignoring_case("Port"@, "Port"@),
{
    reveal_strlit("HostName");
    reveal_strlit("User");
    reveal_strlit("Port");
    reveal_strlit("IdentityFile");
    reveal_strlit("ProxyJump");
    assert("User"@[0] == 'U' && "Port"@[0] == 'P');
}

/// Dropping more after dropping less is dropping more.
pub proof fn lemma_retained_twice(
    ds: Seq<DirectiveView>,
    p: spec_fn(DirectiveView) -> bool,
    q: spec_fn(DirectiveView) -> bool,
)
    requires
        forall|d: DirectiveView| #[trigger] p(d) ==> q(d),
    ensures
        retained(retained(ds, p), q) == retained(ds, q),
    decreases ds.len(),
{
    if ds.len() > 0 {
        lemma_retained_twice(ds.drop_last(), p, q);
        let before = retained(ds.drop_last(), p);
        if !p(ds.last()) {
            assert(before.push(ds.last()).drop_last() =~= before);
        }
    }
}

/// Changing a dropped directive into another dropped one changes nothing that
/// is retained.
pub proof fn lemma_retained_update(
    ds: Seq<DirectiveView>,
    q: spec_fn(DirectiveView) -> bool,
    i: int,
    d: DirectiveView,
)
    requires
        0 <= i < ds.len(),
        q(ds[i]),
        q(d),
    ensures
        retained(ds.update(i, d), q) == retained(ds, q),
    decreases ds.len(),
{
    let u = ds.update(i, d);
    if i == ds.len() - 1 {
        assert(u.drop_last() =~= ds.drop_last());
    } else {
        lemma_retained_update(ds.drop_last(), q, i, d);
        assert(u.drop_last() =~= ds.drop_last().update(i, d));
        assert(u.last() == ds.last());
    }
}

/// Inserting a dropped directive changes nothing that is retained.
pub proof fn lemma_retained_insert(
    ds: Seq<DirectiveView>,
    q: spec_fn(DirectiveView) -> bool,
    i: int,
    d: DirectiveView,
)
    requires
        0 <= i <= ds.len(),
        q(d),
    ensures
        retained(ds.insert(i, d), q) == retained(ds, q),
    decreases ds.len(),
{
    let u = ds.insert(i, d);
    if i == ds.len() {
        assert(u.drop_last() =~= ds);
        assert(u.last() == d);
    } else {
        lemma_retained_insert(ds.drop_last(), q, i, d);
        assert(u.drop_last() =~= ds.drop_last().insert(i, d));
        assert(u.last() == ds.last());
    }
}

/// Nothing that is retained is dropped.
pub proof fn lemma_retained_holds_none(ds: Seq<DirectiveView>, q: spec_fn(DirectiveView) -> bool)
    ensures
        forall|i: int| 0 <= i < retained(ds, q).len() ==> !q(#[trigger] retained(ds, q)[i]),
    decreases ds.len(),
{
    if ds.len() > 0 {
        lemma_retained_holds_none(ds.drop_last(), q);
        let before = retained(ds.drop_last(), q);
        let all = retained(ds, q);
        assert forall|i: int| 0 <= i < all.len() implies !q(#[trigger] all[i]) by {
            if i < before.len() {
                assert(all[i] == before[i]);
            }
        }
    }
}

/// Setting a key changes nothing among the directives that `q` retains, if `q`
/// drops every directive with that key.
proof fn lemma_upserted_keeps(
    ds: Seq<DirectiveView>,
    key: Seq<char>,
    value: Seq<char>,
    q: spec_fn(DirectiveView) -> bool,
)
    requires
        forall|d: DirectiveView| #[trigger] has_key(d, key) ==> q(d),
    ensures
        retained(upserted(ds, key, value), q) == retained(ds, q),
        retained(without_key(ds, key), q) == retained(ds, q),
{
    lemma_retained_twice(ds, |d: DirectiveView| has_key(d, key), q);
    let i = crate::ssh_config::block::key_position(ds, key);
    lemma_key_position(ds, key);
    if value.len() == 0 {
    } else if 0 <= i < ds.len() {
        if ds[i].value != value {
            let d = DirectiveView {
                value,
                raw_line: written_line(indent_of(ds), ds[i].key, value),
                ..ds[i]
            };
            assert(has_key(d, key));
            lemma_retained_update(ds, q, i, d);
        }
    } else {
        lemma_content_end(ds);
        let d = written(indent_of(ds), key, value);
        assert(has_key(d, key));
        lemma_retained_insert(ds, q, content_end(ds) as int, d);
    }
}

/// `key_position` is the first directive with the key, if it is a position.
proof fn lemma_key_position(ds: Seq<DirectiveView>, key: Seq<char>)
    ensures
        0 <= crate::ssh_config::block::key_position(ds, key) <= ds.len(),
        crate::ssh_config::block::key_position(ds, key) < ds.len() ==> has_key(
            ds[crate::ssh_config::block::key_position(ds, key)],
            key,
        ),
    decreases ds.len(),
{
    if !(ds.len() == 0 || has_key(ds[0], key)) {
        let t = ds.drop_first();
        lemma_key_position(t, key);
        let n = crate::ssh_config::block::key_position(ds, key);
        if n < ds.len() {
            assert(ds[n] == t[n - 1]);
        }
    }
}

/// An update leaves alone what it does not know.
///
/// Whatever record a stanza is updated from, its lines other than the
/// directives with the keys `HostName`, `User`, `Port`, `IdentityFile` and
/// `ProxyJump` (comments, blank lines, every other directive) are all still
/// there afterwards, each as it was and in the same order.
pub proof fn update_keeps_unknown_directives(b: HostBlockView, e: HostEntryView)
    ensures
        retained(updated_block(b, e).directives, |d: DirectiveView| known(d)) == retained(
            b.directives,
            |d: DirectiveView| known(d),
        ),
{
    let q = |d: DirectiveView| known(d);
    let d1 = upserted(b.directives, "HostName"@, e.hostname);
    let d2 = upserted(d1, "User"@, e.user);
    let port = crate::number::decimal(e.port as nat);
    let d3 = if e.port != 22 {
        upserted(d2, "Port"@, port)
    } else {
        without_key(d2, "Port"@)
    };
    let d4 = upserted(d3, "IdentityFile"@, e.identity_file);
    lemma_upserted_keeps(b.directives, "HostName"@, e.hostname, q);
    lemma_upserted_keeps(d1, "User"@, e.user, q);
    lemma_upserted_keeps(d2, "Port"@, port, q);
    lemma_upserted_keeps(d3, "IdentityFile"@, e.identity_file, q);
    lemma_upserted_keeps(d4, "ProxyJump"@, e.proxy_jump, q);
}

/// What is deleted is gone, and no two blank lines are left side by side.
///
/// After `delete_host` no stanza of the document itself has the pattern, and
/// no blank global line follows another.
pub proof fn deleted_host_is_gone(es: Seq<ElementView>, alias: Seq<char>)
    ensures
        forall|i: int|
            0 <= i < pruned(es, alias).len() ==> !is_host(#[trigger] pruned(es, alias)[i], alias),
        forall|i: int|
            0 < i < pruned(es, alias).len() ==> !(blank_global(
                #[trigger] pruned(es, alias)[i],
            ) && blank_global(pruned(es, alias)[i - 1])),
    decreases es.len(),
{
    if es.len() > 0 {
        deleted_host_is_gone(es.drop_last(), alias);
        let before = pruned(es.drop_last(), alias);
        let all = pruned(es, alias);
        assert forall|i: int| 0 <= i < all.len() implies !is_host(#[trigger] all[i], alias) by {
            if i < before.len() {
                assert(all[i] == before[i]);
            }
        }
        assert forall|i: int| 0 < i < all.len() implies !(blank_global(#[trigger] all[i])
            && blank_global(all[i - 1])) by {
            if i < before.len() {
                assert(all[i] == before[i]);
                assert(all[i - 1] == before[i - 1]);
            } else {
                assert(all[i - 1] == before[i - 1]);
            }
        }
    }
}

/// Deleting a host and inserting what was removed where it stood restores the
/// document.
///
/// With the element and the position that `delete_host_undoable` returns,
/// `insert_host_at` gives back the very elements from before the deletion, and
/// so the same text, character for character.
pub proof fn undo_restores_document(elements: Seq<ConfigElement>, alias: Seq<char>)
    requires
        host_position(element_views(elements), alias) < elements.len(),
    ensures
        ({
            let position = host_position(element_views(elements), alias);
            let removed = elements[position];
            let deleted = elements.remove(position);
            let at = if position <= deleted.len() {
                position
            } else {
                deleted.len() as int
            };
            let restored = deleted.insert(at, removed);
            &&& restored == elements
            &&& serialized(element_views(restored)) == serialized(element_views(elements))
        }),
{
    crate::ssh_config::mutation::lemma_host_position(element_views(elements), alias);
    let position = host_position(element_views(elements), alias);
    assert(elements.remove(position).insert(position, elements[position]) =~= elements);
}

/// The indentation of a stanza is white space.
pub proof fn lemma_indent_is_whitespace(ds: Seq<DirectiveView>)
    ensures
        forall|i: int| 0 <= i < indent_of(ds).len() ==> whitespace(#[trigger] indent_of(ds)[i]),
    decreases ds.len(),
{
    if ds.len() == 0 {
        reveal_strlit("  ");
        let two = "  "@;
        assert(two.len() == 2 && two[0] == ' ' && two[1] == ' ');
        assert(whitespace(' '));
        assert forall|i: int| 0 <= i < two.len() implies whitespace(#[trigger] two[i]) by {
            assert(i == 0 || i == 1);
        }
        assert(indent_of(ds) == two);
    } else if !ds[0].is_non_directive && leading_whitespace(ds[0].raw_line) > 0 {
        let raw = ds[0].raw_line;
        let n = leading_whitespace(raw) as int;
        lemma_leading_whitespace(raw);
        assert forall|i: int| 0 <= i < indent_of(ds).len() implies whitespace(
            #[trigger] indent_of(ds)[i],
        ) by {
            assert(raw.take(n)[i] == raw[i]);
        }
    } else {
        lemma_indent_is_whitespace(ds.drop_first());
        assert(indent_of(ds) == indent_of(ds.drop_first()));
    }
}

/// White space around a text that begins and ends otherwise is trimmed away
/// exactly.
pub proof fn lemma_trimmed_indented(indent: Seq<char>, body: Seq<char>)
    requires
        forall|i: int| 0 <= i < indent.len() ==> whitespace(#[trigger] indent[i]),
        body.len() > 0,
        !whitespace(body[0]),
        !whitespace(body.last()),
    ensures
        trimmed(indent + body) == body,
{
    let line = indent + body;
    assert forall|i: int| 0 <= i < indent.len() implies whitespace(#[trigger] line[i]) by {
        assert(line[i] == indent[i]);
    }
    assert(line[indent.len() as int] == body[0]);
    lemma_leading_whitespace_is(line, indent.len() as int);
    assert(trimmed_start(line) =~= body);
    lemma_trailing_whitespace_is(body, 0);
    assert(body.take(body.len() as int) =~= body);
}

/// Tags that can stand as they are come out of a tag list as they went in.
pub proof fn lemma_kept_plain_tags(tags: Seq<Seq<char>>)
    requires
        forall|i: int| 0 <= i < tags.len() ==> plain_tag(#[trigger] tags[i]),
    ensures
        kept_tags(tags) == tags,
    decreases tags.len(),
{
    if tags.len() > 0 {
        let before = tags.drop_last();
        assert forall|i: int| 0 <= i < before.len() implies plain_tag(#[trigger] before[i]) by {
            assert(before[i] == tags[i]);
        }
        lemma_kept_plain_tags(before);
        let t = tags.last();
        assert(plain_tag(t));
        lemma_trimmed_indented(Seq::empty(), t);
        assert(Seq::<char>::empty() + t =~= t);
        assert(before.push(t) =~= tags);
    } else {
        assert(kept_tags(tags) =~= tags);
    }
}

/// Joined pieces end as the last piece ends, if that piece is not empty.
pub proof fn lemma_join_ends(parts: Seq<Seq<char>>, sep: Seq<char>)
    requires
        parts.len() > 0,
        parts.last().len() > 0,
    ensures
        join(parts, sep).len() > 0,
        join(parts, sep).last() == parts.last().last(),
    decreases parts.len(),
{
    if parts.len() > 1 {
        let rest = parts.drop_first();
        assert(rest.last() == parts.last());
        lemma_join_ends(rest, sep);
        assert(join(parts, sep) =~= parts[0] + sep + join(rest, sep));
    }
}

/// The tags of a stanza are those of the first tag comment, whatever stands
/// before it.
pub proof fn lemma_tags_of_first(ds: Seq<DirectiveView>, n: int, tags: Seq<Seq<char>>)
    requires
        0 <= n < ds.len(),
        forall|i: int|
            0 <= i < n ==> !((#[trigger] ds[i]).is_non_directive && line_tags(ds[i].raw_line)
                is Some),
        ds[n].is_non_directive,
        line_tags(ds[n].raw_line) == Some(tags),
    ensures
        tags_of(ds) == tags,
    decreases n,
{
    if n > 0 {
        let t = ds.drop_first();
        assert(!(ds[0].is_non_directive && line_tags(ds[0].raw_line) is Some));
        assert forall|i: int| 0 <= i < n - 1 implies !((#[trigger] t[i]).is_non_directive
            && line_tags(t[i].raw_line) is Some) by {
            assert(t[i] == ds[i + 1]);
        }
        assert(t[n - 1] == ds[n]);
        lemma_tags_of_first(t, n - 1, tags);
    }
}

/// A stanza without a tag comment has no tags.
pub proof fn lemma_tags_of_none(ds: Seq<DirectiveView>)
    requires
        forall|i: int| 0 <= i < ds.len() ==> !is_tag_line(#[trigger] ds[i]),
    ensures
        tags_of(ds) == Seq::<Seq<char>>::empty(),
    decreases ds.len(),
{
    if ds.len() > 0 {
        let t = ds.drop_first();
        assert forall|i: int| 0 <= i < t.len() implies !is_tag_line(#[trigger] t[i]) by {
            assert(t[i] == ds[i + 1]);
        }
        lemma_tags_of_none(t);
        lemma_marker_extends_prefix(trimmed(ds[0].raw_line));
        assert(!is_tag_line(ds[0]));
    }
}

/// A text that begins with the marker of a tag list begins with the marker of
/// a tag comment.
proof fn lemma_marker_extends_prefix(t: Seq<char>)
    ensures
        tag_marker().is_prefix_of(t) ==> tag_prefix().is_prefix_of(t),
        tag_marker().len() > 0,
        tag_marker()[0] == '#',
{
    reveal_strlit("# purple:tags ");
    reveal_strlit("# purple:tags");
    if tag_marker().is_prefix_of(t) {
        assert(tag_prefix() =~= tag_marker().subrange(0, tag_prefix().len() as int));
        assert(tag_prefix() =~= t.subrange(0, tag_prefix().len() as int));
    }
}

/// Tags that are set are the tags that are read.
///
/// For at least one tag, each not empty, without white space at either end and
/// without a comma: after the tags of a stanza are set, its tags are exactly
/// those, in their order.
pub proof fn tags_round_trip(ds: Seq<DirectiveView>, tags: Seq<Seq<char>>)
    requires
        tags.len() > 0,
        forall|i: int| 0 <= i < tags.len() ==> plain_tag(#[trigger] tags[i]),
    ensures
        tags_of(with_tags(ds, tags)) == tags,
{
    let drop = |d: DirectiveView| is_tag_line(d);
    let kept = retained(ds, drop);
    let pos = content_end(kept) as int;
    let line = tag_line(indent_of(ds), tags);
    let result = kept.insert(pos, line);
    lemma_retained_holds_none(ds, drop);
    lemma_content_end(kept);
    assert forall|i: int| 0 <= i < pos implies !((#[trigger] result[i]).is_non_directive
        && line_tags(result[i].raw_line) is Some) by {
        assert(result[i] == kept[i]);
        assert(!drop(kept[i]));
        lemma_marker_extends_prefix(trimmed(kept[i].raw_line));
    }
    assert(result[pos] == line);
    let joined = join(tags, ","@);
    let body = tag_marker() + joined;
    reveal_strlit(",");
    assert(","@ =~= seq![',']);
    assert(plain_tag(tags.last()));
    lemma_join_ends(tags, ","@);
    lemma_marker_extends_prefix(body);
    reveal_strlit("# purple:tags ");
    assert(body[0] == '#');
    assert(body.last() == joined.last());
    lemma_indent_is_whitespace(ds);
    lemma_trimmed_indented(indent_of(ds), body);
    assert(line.raw_line =~= indent_of(ds) + body);
    assert(tag_marker().is_prefix_of(body)) by {
        assert(body.subrange(0, tag_marker().len() as int) =~= tag_marker());
    }
    assert(body.skip(tag_marker().len() as int) =~= joined);
    assert forall|k: int| 0 <= k < tags.len() implies !(#[trigger] tags[k]).contains(',') by {
        assert(plain_tag(tags[k]));
    }
    lemma_split_of_join(tags, ',');
    lemma_kept_plain_tags(tags);
    assert(line_tags(line.raw_line) == Some(tags));
    lemma_tags_of_first(result, pos, tags);
}

/// Setting no tags removes the tag comment.
///
/// After the tags of a stanza are set to none, no line of it is a tag comment,
/// and it has no tags.
pub proof fn no_tags_leave_no_comment(ds: Seq<DirectiveView>)
    ensures
        forall|i: int|
            0 <= i < with_tags(ds, Seq::empty()).len() ==> !is_tag_line(
                #[trigger] with_tags(ds, Seq::empty())[i],
            ),
        tags_of(with_tags(ds, Seq::empty())) == Seq::<Seq<char>>::empty(),
{
    let drop = |d: DirectiveView| is_tag_line(d);
    lemma_retained_holds_none(ds, drop);
    let kept = retained(ds, drop);
    assert forall|i: int| 0 <= i < kept.len() implies !is_tag_line(#[trigger] kept[i]) by {
        assert(!drop(kept[i]));
    }
    lemma_tags_of_none(kept);
}

/// Which of the keys that an edit writes are the same up to case as the keys
/// that the projection reads.
proof fn lemma_written_keys_are_read()
    ensures
        same_ignoring_case("HostName"@, "hostname"@),
        same_ignoring_case("User"@, "user"@),
        same_ignoring_case("Port"@, "port"@),
        same_ignoring_case("IdentityFile"@, "identityfile"@),
        same_ignoring_case("ProxyJump"@, "proxyjump"@),
        !same_ignoring_case("HostName"@, "user"@),
        !same_ignoring_case("HostName"@, "port"@),
        !same_ignoring_case("HostName"@, "identityfile"@),
        !same_ignoring_case("HostName"@, "proxyjump"@),
        !same_ignoring_case("User"@, "hostname"@),
        !same_ignoring_case("User"@, "port"@),
        !same_ignoring_case("User"@, "identityfile"@),
        !same_ignoring_case("User"@, "proxyjump"@),
        !same_ignoring_case("Port"@, "hostname"@),
        !same_ignoring_case("Port"@, "user"@),
        !same_ignoring_case("Port"@, "identityfile"@),
        !same_ignoring_case("Port"@, "proxyjump"@),
        !same_ignoring_case("IdentityFile"@, "hostname"@),
        !same_ignoring_case("IdentityFile"@, "user"@),
        !same_ignoring_case("IdentityFile"@, "port"@),
        !same_ignoring_case("IdentityFile"@, "proxyjump"@),
        !same_ignoring_case("ProxyJump"@, "hostname"@),
        !same_ignoring_case("ProxyJump"@, "user"@),
        !same_ignoring_case("ProxyJump"@, "port"@),
        !same_ignoring_case("ProxyJump"@, "identityfile"@),
{
    reveal_strlit("HostName");
    reveal_strlit("User");
    reveal_strlit("Port");
    reveal_strlit("IdentityFile");
    reveal_strlit("ProxyJump");
    reveal_strlit("hostname");
    reveal_strlit("user");
    reveal_strlit("port");
    reveal_strlit("identityfile");
    reveal_strlit("proxyjump");
    assert("User"@[0] == 'U' && "port"@[0] == 'p');
    assert("Port"@[0] == 'P' && "user"@[0] == 'u');
    assert("ProxyJump"@[0] == 'P' && "ProxyJump"@.len() == 9);
}

/// What the value of the last directive with `key` is, when one more directive
/// is written after `ds`.
proof fn lemma_last_value_push(ds: Seq<DirectiveView>, d: DirectiveView, key: Seq<char>)
    ensures
        crate::ssh_config::projection::last_value(ds.push(d), key) == if has_key(d, key) {
            Some(d.value)
        } else {
            crate::ssh_config::projection::last_value(ds, key)
        },
        crate::ssh_config::projection::first_filled_value(ds.push(d), key) == if
            crate::ssh_config::projection::first_filled_value(ds, key).len() == 0 && has_key(
            d,
            key,
        ) {
            d.value
        } else {
            crate::ssh_config::projection::first_filled_value(ds, key)
        },
{
    assert(ds.push(d).drop_last() =~= ds);
}

/// A stanza that is written has no tag comment.
proof fn lemma_written_has_no_tags(ds: Seq<DirectiveView>)
    requires
        forall|i: int| 0 <= i < ds.len() ==> !(#[trigger] ds[i]).is_non_directive,
    ensures
        tags_of(ds) == Seq::<Seq<char>>::empty(),
    decreases ds.len(),
{
    if ds.len() > 0 {
        let t = ds.drop_first();
        assert forall|i: int| 0 <= i < t.len() implies !(#[trigger] t[i]).is_non_directive by {
            assert(t[i] == ds[i + 1]);
        }
        lemma_written_has_no_tags(t);
        assert(!ds[0].is_non_directive);
    }
}

/// What is added is what is shown.
///
/// The host record of the stanza that is written for a record is that record,
/// without its tags and its source, which a new stanza does not have.
pub proof fn added_host_is_projected(e: HostEntryView)
    ensures
        crate::ssh_config::projection::entry_of(block_of(e)) == (HostEntryView {
            source_file: None,
            tags: Seq::empty(),
            ..e
        }),
{
    lemma_written_keys_are_read();
    let none = Seq::<DirectiveView>::empty();
    let a = optional_line("HostName"@, e.hostname);
    let b = optional_line("User"@, e.user);
    let p = if e.port != 22 {
        seq![written("  "@, "Port"@, crate::number::decimal(e.port as nat))]
    } else {
        none
    };
    let c = optional_line("IdentityFile"@, e.identity_file);
    let d = optional_line("ProxyJump"@, e.proxy_jump);
    let s0 = none;
    let s1 = s0 + a;
    let s2 = s1 + b;
    let s3 = s2 + p;
    let s4 = s3 + c;
    let s5 = s4 + d;
    assert(block_of(e).directives =~= s5);
    if a.len() > 0 {
        lemma_last_value_push(s0, a[0], "hostname"@);
        lemma_last_value_push(s0, a[0], "user"@);
        lemma_last_value_push(s0, a[0], "port"@);
        lemma_last_value_push(s0, a[0], "identityfile"@);
        lemma_last_value_push(s0, a[0], "proxyjump"@);
        assert(s1 =~= s0.push(a[0]));
    } else {
        assert(s1 =~= s0);
    }
    if b.len() > 0 {
        lemma_last_value_push(s1, b[0], "hostname"@);
        lemma_last_value_push(s1, b[0], "user"@);
        lemma_last_value_push(s1, b[0], "port"@);
        lemma_last_value_push(s1, b[0], "identityfile"@);
        lemma_last_value_push(s1, b[0], "proxyjump"@);
        assert(s2 =~= s1.push(b[0]));
    } else {
        assert(s2 =~= s1);
    }
    if p.len() > 0 {
        lemma_last_value_push(s2, p[0], "hostname"@);
        lemma_last_value_push(s2, p[0], "user"@);
        lemma_last_value_push(s2, p[0], "port"@);
        lemma_last_value_push(s2, p[0], "identityfile"@);
        lemma_last_value_push(s2, p[0], "proxyjump"@);
        assert(s3 =~= s2.push(p[0]));
        crate::number::decimal_round_trip(e.port as nat, 0x1_0000);
    } else {
        assert(s3 =~= s2);
    }
    if c.len() > 0 {
        lemma_last_value_push(s3, c[0], "hostname"@);
        lemma_last_value_push(s3, c[0], "user"@);
        lemma_last_value_push(s3, c[0], "port"@);
        lemma_last_value_push(s3, c[0], "identityfile"@);
        lemma_last_value_push(s3, c[0], "proxyjump"@);
        assert(s4 =~= s3.push(c[0]));
    } else {
        assert(s4 =~= s3);
    }
    if d.len() > 0 {
        lemma_last_value_push(s4, d[0], "hostname"@);
        lemma_last_value_push(s4, d[0], "user"@);
        lemma_last_value_push(s4, d[0], "port"@);
        lemma_last_value_push(s4, d[0], "identityfile"@);
        lemma_last_value_push(s4, d[0], "proxyjump"@);
        assert(s5 =~= s4.push(d[0]));
    } else {
        assert(s5 =~= s4);
    }
    assert forall|i: int| 0 <= i < s5.len() implies !(#[trigger] s5[i]).is_non_directive by {
        if i < s1.len() {
            assert(s5[i] == a[i]);
        } else if i < s2.len() {
            assert(s5[i] == b[i - s1.len()]);
        } else if i < s3.len() {
            assert(s5[i] == p[i - s2.len()]);
        } else if i < s4.len() {
            assert(s5[i] == c[i - s3.len()]);
        } else {
            assert(s5[i] == d[i - s4.len()]);
        }
    }
    lemma_written_has_no_tags(s5);
    let shown = crate::ssh_config::projection::entry_of(block_of(e));
    assert(shown.hostname =~= e.hostname);
    assert(shown.user =~= e.user);
    assert(shown.identity_file =~= e.identity_file);
    assert(shown.proxy_jump =~= e.proxy_jump);
    assert(shown.port == e.port);
}

} // verus!

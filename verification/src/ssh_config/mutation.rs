//! Editing a document: adding, updating, tagging, deleting and moving stanzas.
//!
//! Every edit acts on the elements of the document itself. What an `Include`
//! resolved to is carried along untouched.
use crate::split::strings;
use crate::ssh_config::block::{
    blank, block_of, content_end, empty_line, is_blank, updated_block, with_tags,
};
use crate::ssh_config::model::{
    element_views, ConfigElement, ElementView, HostBlock, HostBlockView, HostEntry, SshConfigFile,
};
use crate::text::{str_eq, trimmed};
use vstd::prelude::*;

verus! {

/// Whether `e` is the stanza whose pattern is exactly `alias`.
pub open spec fn is_host(e: ElementView, alias: Seq<char>) -> bool {
    e matches ElementView::HostBlock(b) && b.host_pattern == alias
}

/// Position of the first stanza whose pattern is exactly `alias`, or `es.len()`.
pub open spec fn host_position(es: Seq<ElementView>, alias: Seq<char>) -> int
    decreases es.len(),
{
    if es.len() == 0 || is_host(es[0], alias) {
        0
    } else {
        1 + host_position(es.drop_first(), alias)
    }
}

/// Whether the document ends in a blank line: a blank global line, or a stanza
/// whose last line is blank.
pub open spec fn ends_blank(es: Seq<ElementView>) -> bool {
    es.len() > 0 && match es.last() {
        ElementView::HostBlock(b) => b.directives.len() > 0 && blank(b.directives.last()),
        ElementView::GlobalLine(l) => trimmed(l).len() == 0,
        ElementView::Include(_) => false,
    }
}

/// What is put before a new stanza: one empty global line, unless the document
/// is empty or ends in a blank line.
pub open spec fn separator(es: Seq<ElementView>) -> Seq<ElementView> {
    if es.len() > 0 && !ends_blank(es) {
        seq![ElementView::GlobalLine(Seq::empty())]
    } else {
        seq![]
    }
}

/// The elements after a stanza for the record `e` is appended.
pub open spec fn with_host(es: Seq<ElementView>, e: crate::ssh_config::model::HostEntryView) -> Seq<
    ElementView,
> {
    es + separator(es) + seq![ElementView::HostBlock(block_of(e))]
}

/// Whether `e` is a blank global line.
pub open spec fn blank_global(e: ElementView) -> bool {
    e matches ElementView::GlobalLine(l) && trimmed(l).len() == 0
}

/// The elements without the stanzas whose pattern is exactly `alias`, and with
/// each run of blank global lines that results reduced to its first line.
pub open spec fn pruned(es: Seq<ElementView>, alias: Seq<char>) -> Seq<ElementView>
    decreases es.len(),
{
    if es.len() == 0 {
        es
    } else {
        let before = pruned(es.drop_last(), alias);
        let e = es.last();
        if is_host(e, alias) {
            before
        } else if blank_global(e) && before.len() > 0 && blank_global(before.last()) {
            before
        } else {
            before.push(e)
        }
    }
}

/// The stanza without its trailing blank lines.
pub open spec fn stripped(b: HostBlockView) -> HostBlockView {
    HostBlockView { directives: b.directives.take(content_end(b.directives) as int), ..b }
}

/// The stanza with exactly one empty line at its end.
pub open spec fn closed(b: HostBlockView) -> HostBlockView {
    HostBlockView { directives: stripped(b).directives.push(empty_line()), ..b }
}

/// The elements after the stanzas at `a` and `b` changed places. The one that
/// now comes first ends in one empty line; so does the other, unless it is the
/// last element, where it ends without blank lines.
pub open spec fn swapped(es: Seq<ElementView>, a: int, b: int) -> Seq<ElementView> {
    let first = if a <= b {
        a
    } else {
        b
    };
    let second = if a <= b {
        b
    } else {
        a
    };
    let x = es[first]->HostBlock_0;
    let y = es[second]->HostBlock_0;
    if first == second {
        es.update(first, ElementView::HostBlock(closed(x)))
    } else {
        es.update(first, ElementView::HostBlock(closed(y))).update(
            second,
            ElementView::HostBlock(
                if second < es.len() - 1 {
                    closed(x)
                } else {
                    stripped(x)
                },
            ),
        )
    }
}

/// `host_position` is determined by the first stanza with the pattern.
pub proof fn lemma_host_position_is(es: Seq<ElementView>, alias: Seq<char>, n: int)
    requires
        0 <= n <= es.len(),
        forall|i: int| 0 <= i < n ==> !is_host(#[trigger] es[i], alias),
        n < es.len() ==> is_host(es[n], alias),
    ensures
        host_position(es, alias) == n,
    decreases es.len(),
{
    if n > 0 {
        let t = es.drop_first();
        assert(!is_host(es[0], alias));
        assert forall|i: int| 0 <= i < n - 1 implies !is_host(#[trigger] t[i], alias) by {
            assert(t[i] == es[i + 1]);
        }
        lemma_host_position_is(t, alias, n - 1);
    }
}

/// `host_position` is the first stanza with the pattern: none stands before it.
pub proof fn lemma_host_position(es: Seq<ElementView>, alias: Seq<char>)
    ensures
        0 <= host_position(es, alias) <= es.len(),
        forall|i: int| 0 <= i < host_position(es, alias) ==> !is_host(#[trigger] es[i], alias),
        host_position(es, alias) < es.len() ==> is_host(es[host_position(es, alias)], alias),
    decreases es.len(),
{
    if !(es.len() == 0 || is_host(es[0], alias)) {
        let t = es.drop_first();
        lemma_host_position(t, alias);
        assert forall|i: int| 0 <= i < host_position(es, alias) implies !is_host(
            #[trigger] es[i],
            alias,
        ) by {
            if i > 0 {
                assert(es[i] == t[i - 1]);
            }
        }
        if host_position(es, alias) < es.len() {
            assert(es[host_position(es, alias)] == t[host_position(t, alias)]);
        }
    }
}

/// An element that stands in for one that is being edited.
fn placeholder() -> (e: ConfigElement)
    ensures
        e@ == ElementView::GlobalLine(Seq::empty()),
{
    ConfigElement::GlobalLine(String::new())
}

/// Whether `e` is a blank global line.
fn is_blank_global(e: &ConfigElement) -> (r: bool)
    ensures
        r == blank_global(e@),
{
    match e {
        ConfigElement::GlobalLine(line) => is_blank(line.as_str()),
        _ => false,
    }
}

impl SshConfigFile {
    /// Position of the first stanza whose pattern is exactly `alias`.
    pub fn find_host(&self, alias: &str) -> (pos: usize)
        ensures
            pos == host_position(element_views(self.elements@), alias@),
            pos <= self.elements.len(),
            pos < self.elements.len() ==> is_host(self.elements@[pos as int]@, alias@),
    {
        let ghost es = element_views(self.elements@);
        let mut i: usize = 0;
        while i < self.elements.len()
            invariant
                i <= self.elements.len(),
                es == element_views(self.elements@),
                forall|k: int| 0 <= k < i ==> !is_host(#[trigger] es[k], alias@),
            decreases self.elements.len() - i,
        {
            match &self.elements[i] {
                ConfigElement::HostBlock(block) => {
                    if str_eq(block.host_pattern.as_str(), alias) {
                        proof {
                            assert(is_host(es[i as int], alias@));
                            lemma_host_position_is(es, alias@, i as int);
                        }
                        return i;
                    }
                },
                _ => {},
            }
            i += 1;
        }
        proof {
            lemma_host_position_is(es, alias@, i as int);
        }
        i
    }

    /// Whether the document ends in a blank line.
    pub fn last_element_has_trailing_blank(&self) -> (r: bool)
        ensures
            r == ends_blank(element_views(self.elements@)),
    {
        let n = self.elements.len();
        if n == 0 {
            return false;
        }
        match &self.elements[n - 1] {
            ConfigElement::HostBlock(block) => {
                let m = block.directives.len();
                m > 0 && block.directives[m - 1].is_non_directive && is_blank(
                    block.directives[m - 1].raw_line.as_str(),
                )
            },
            ConfigElement::GlobalLine(line) => is_blank(line.as_str()),
            ConfigElement::Include(_) => false,
        }
    }

    /// Appends a stanza for `entry`, after an empty line if the document does
    /// not end in a blank one.
    pub fn add_host(&mut self, entry: &HostEntry)
        ensures
            final(self).path == old(self).path,
            final(self).crlf == old(self).crlf,
            final(self).elements@.take(old(self).elements@.len() as int) == old(self).elements@,
            element_views(final(self).elements@) == with_host(
                element_views(old(self).elements@),
                entry@,
            ),
    {
        let block = Self::entry_to_block(entry);
        let ghost before = self.elements@;
        if !self.elements.is_empty() && !self.last_element_has_trailing_blank() {
            self.elements.push(ConfigElement::GlobalLine(String::new()));
        }
        self.elements.push(ConfigElement::HostBlock(block));
        proof {
            assert(self.elements@.take(before.len() as int) =~= before);
            assert(element_views(self.elements@) =~= element_views(before) + separator(
                element_views(before),
            ) + seq![ElementView::HostBlock(block_of(entry@))]);
        }
    }

    /// Rewrites the first stanza whose pattern is exactly `old_alias` from
    /// `entry`. Returns whether there is such a stanza; without one the document
    /// stays as it is.
    pub fn update_host(&mut self, old_alias: &str, entry: &HostEntry) -> (found: bool)
        ensures
            final(self).path == old(self).path,
            final(self).crlf == old(self).crlf,
            found == (host_position(element_views(old(self).elements@), old_alias@) < old(
                self,
            ).elements@.len()),
            !found ==> final(self).elements@ == old(self).elements@,
            found ==> {
                let pos = host_position(element_views(old(self).elements@), old_alias@);
                &&& final(self).elements@.len() == old(self).elements@.len()
                &&& forall|j: int|
                    0 <= j < old(self).elements@.len() && j != pos ==> final(self).elements@[j]
                        == old(self).elements@[j]
                &&& final(self).elements@[pos]@ == ElementView::HostBlock(
                    updated_block(old(self).elements@[pos]@->HostBlock_0, entry@),
                )
            },
    {
        let pos = self.find_host(old_alias);
        if pos >= self.elements.len() {
            return false;
        }
        let mut slot = placeholder();
        let ghost before = self.elements@[pos as int]@->HostBlock_0;
        self.elements.set_and_swap(pos, &mut slot);
        proof {
            reveal_strlit("");
        }
        let updated = match slot {
            ConfigElement::HostBlock(mut block) => {
                assert(block@ == before);
                block.host_pattern = entry.alias.clone();
                let mut host_line = String::from_str("Host ");
                host_line.append(entry.alias.as_str());
                block.raw_host_line = host_line;
                block.upsert_directive("HostName", entry.hostname.as_str());
                block.upsert_directive("User", entry.user.as_str());
                if entry.port != 22 {
                    let port = crate::text::string_of(
                        crate::number::decimal_chars(entry.port as u64).as_slice(),
                    );
                    block.upsert_directive("Port", port.as_str());
                } else {
                    block.upsert_directive("Port", "");
                }
                block.upsert_directive("IdentityFile", entry.identity_file.as_str());
                block.upsert_directive("ProxyJump", entry.proxy_jump.as_str());
                assert(block@ == updated_block(before, entry@));
                ConfigElement::HostBlock(block)
            },
            other => other,
        };
        self.elements.set(pos, updated);
        true
    }

    /// Replaces the tags of the first stanza whose pattern is exactly `alias`.
    /// Returns whether there is such a stanza; without one the document stays as
    /// it is.
    pub fn set_host_tags(&mut self, alias: &str, tags: &[String]) -> (found: bool)
        ensures
            final(self).path == old(self).path,
            final(self).crlf == old(self).crlf,
            found == (host_position(element_views(old(self).elements@), alias@) < old(
                self,
            ).elements@.len()),
            !found ==> final(self).elements@ == old(self).elements@,
            found ==> {
                let pos = host_position(element_views(old(self).elements@), alias@);
                let b = old(self).elements@[pos]@->HostBlock_0;
                &&& final(self).elements@.len() == old(self).elements@.len()
                &&& forall|j: int|
                    0 <= j < old(self).elements@.len() && j != pos ==> final(self).elements@[j]
                        == old(self).elements@[j]
                &&& final(self).elements@[pos]@ == ElementView::HostBlock(
                    HostBlockView { directives: with_tags(b.directives, strings(tags@)), ..b },
                )
            },
    {
        let pos = self.find_host(alias);
        if pos >= self.elements.len() {
            return false;
        }
        let mut slot = placeholder();
        self.elements.set_and_swap(pos, &mut slot);
        let updated = match slot {
            ConfigElement::HostBlock(mut block) => {
                block.set_tags(tags);
                ConfigElement::HostBlock(block)
            },
            other => other,
        };
        self.elements.set(pos, updated);
        true
    }

    /// Removes every stanza whose pattern is exactly `alias` and reduces each run
    /// of blank global lines to one. Returns whether there was such a stanza;
    /// without one the document stays as it is.
    pub fn delete_host(&mut self, alias: &str) -> (found: bool)
        ensures
            final(self).path == old(self).path,
            final(self).crlf == old(self).crlf,
            found == (host_position(element_views(old(self).elements@), alias@) < old(
                self,
            ).elements@.len()),
            !found ==> final(self).elements@ == old(self).elements@,
            found ==> element_views(final(self).elements@) == pruned(
                element_views(old(self).elements@),
                alias@,
            ),
    {
        let pos = self.find_host(alias);
        if pos >= self.elements.len() {
            return false;
        }
        let ghost all = element_views(self.elements@);
        let ghost mut j: int = 0;
        let mut i: usize = 0;
        proof {
            assert(all.take(0) =~= Seq::<ElementView>::empty());
            assert(element_views(self.elements@).take(0) =~= pruned(all.take(0), alias@));
            assert(all.skip(0) =~= all);
            assert(element_views(self.elements@).skip(0) =~= all.skip(0));
        }
        while i < self.elements.len()
            invariant
                self.path == old(self).path,
                self.crlf == old(self).crlf,
                all == element_views(old(self).elements@),
                0 <= j <= all.len(),
                i <= self.elements.len(),
                self.elements.len() - i == all.len() - j,
                element_views(self.elements@).take(i as int) == pruned(all.take(j), alias@),
                element_views(self.elements@).skip(i as int) == all.skip(j),
            decreases self.elements.len() - i,
        {
            let ghost cur = element_views(self.elements@);
            proof {
                assert(cur[i as int] == cur.skip(i as int)[0]);
                assert(cur[i as int] == all[j]);
                let t = all.take(j + 1);
                assert(t.drop_last() =~= all.take(j));
                assert(t.last() == all[j]);
                if i > 0 {
                    assert(cur[i - 1] == cur.take(i as int).last());
                }
            }
            let is_target = match &self.elements[i] {
                ConfigElement::HostBlock(block) => str_eq(block.host_pattern.as_str(), alias),
                _ => false,
            };
            let repeats = !is_target && i > 0 && is_blank_global(&self.elements[i])
                && is_blank_global(&self.elements[i - 1]);
            if is_target || repeats {
                let _ = self.elements.remove(i);
                proof {
                    let now = element_views(self.elements@);
                    assert(now.take(i as int) =~= cur.take(i as int));
                    let rest = now.skip(i as int);
                    assert forall|k: int| 0 <= k < rest.len() implies #[trigger] rest[k]
                        == all.skip(j + 1)[k] by {
                        assert(now[i + k] == cur[i + k + 1]);
                        assert(cur.skip(i as int)[k + 1] == all.skip(j)[k + 1]);
                    }
                    assert(now.skip(i as int) =~= all.skip(j + 1));
                }
            } else {
                proof {
                    assert(cur.take(i as int + 1) =~= cur.take(i as int).push(cur[i as int]));
                    let rest = cur.skip(i as int + 1);
                    assert forall|k: int| 0 <= k < rest.len() implies #[trigger] rest[k]
                        == all.skip(j + 1)[k] by {
                        assert(cur.skip(i as int)[k + 1] == all.skip(j)[k + 1]);
                    }
                    assert(cur.skip(i as int + 1) =~= all.skip(j + 1));
                }
                i += 1;
            }
            proof {
                j = j + 1;
            }
        }
        proof {
            assert(all.take(j) =~= all);
            assert(element_views(self.elements@).take(i as int) =~= element_views(
                self.elements@,
            ));
        }
        true
    }

    /// Removes the first stanza whose pattern is exactly `alias` and returns it
    /// with the position it stood at. Nothing else changes, so that
    /// [`SshConfigFile::insert_host_at`] with both values undoes the removal.
    pub fn delete_host_undoable(&mut self, alias: &str) -> (removed: Option<
        (ConfigElement, usize),
    >)
        ensures
            final(self).path == old(self).path,
            final(self).crlf == old(self).crlf,
            match removed {
                Some((element, position)) => {
                    &&& position == host_position(element_views(old(self).elements@), alias@)
                    &&& position < old(self).elements@.len()
                    &&& element == old(self).elements@[position as int]
                    &&& final(self).elements@ == old(self).elements@.remove(position as int)
                },
                None => {
                    &&& host_position(element_views(old(self).elements@), alias@) == old(
                        self,
                    ).elements@.len()
                    &&& final(self).elements@ == old(self).elements@
                },
            },
    {
        let pos = self.find_host(alias);
        if pos >= self.elements.len() {
            return None;
        }
        let element = self.elements.remove(pos);
        Some((element, pos))
    }

    /// Inserts `element` at `position`, or at the end if the document is
    /// shorter.
    pub fn insert_host_at(&mut self, element: ConfigElement, position: usize)
        ensures
            final(self).path == old(self).path,
            final(self).crlf == old(self).crlf,
            final(self).elements@ == old(self).elements@.insert(
                if position <= old(self).elements@.len() {
                    position as int
                } else {
                    old(self).elements@.len() as int
                },
                element,
            ),
    {
        let pos = if position <= self.elements.len() {
            position
        } else {
            self.elements.len()
        };
        self.elements.insert(pos, element);
    }

    /// Exchanges the first stanza whose pattern is exactly `alias_a` with the
    /// first whose pattern is exactly `alias_b`. Returns whether both exist;
    /// otherwise the document stays as it is.
    pub fn swap_hosts(&mut self, alias_a: &str, alias_b: &str) -> (done: bool)
        ensures
            final(self).path == old(self).path,
            final(self).crlf == old(self).crlf,
            done == (host_position(element_views(old(self).elements@), alias_a@) < old(
                self,
            ).elements@.len() && host_position(element_views(old(self).elements@), alias_b@)
                < old(self).elements@.len()),
            !done ==> final(self).elements@ == old(self).elements@,
            done ==> element_views(final(self).elements@) == swapped(
                element_views(old(self).elements@),
                host_position(element_views(old(self).elements@), alias_a@),
                host_position(element_views(old(self).elements@), alias_b@),
            ),
    {
        let a = self.find_host(alias_a);
        let b = self.find_host(alias_b);
        let n = self.elements.len();
        if a >= n || b >= n {
            return false;
        }
        let first = if a <= b {
            a
        } else {
            b
        };
        let second = if a <= b {
            b
        } else {
            a
        };
        let ghost es = element_views(self.elements@);
        let mut x = placeholder();
        self.elements.set_and_swap(first, &mut x);
        if first == second {
            let closed_x = match x {
                ConfigElement::HostBlock(mut block) => {
                    block.ensure_trailing_blank();
                    ConfigElement::HostBlock(block)
                },
                other => other,
            };
            self.elements.set(first, closed_x);
            proof {
                assert(element_views(self.elements@) =~= swapped(es, a as int, b as int));
            }
            return true;
        }
        let mut y = placeholder();
        self.elements.set_and_swap(second, &mut y);
        let new_first = match y {
            ConfigElement::HostBlock(mut block) => {
                block.ensure_trailing_blank();
                ConfigElement::HostBlock(block)
            },
            other => other,
        };
        let new_second = match x {
            ConfigElement::HostBlock(mut block) => {
                if second < n - 1 {
                    block.ensure_trailing_blank();
                } else {
                    let _ = block.pop_trailing_blanks();
                }
                ConfigElement::HostBlock(block)
            },
            other => other,
        };
        self.elements.set(first, new_first);
        self.elements.set(second, new_second);
        proof {
            assert(element_views(self.elements@) =~= swapped(es, a as int, b as int));
        }
        true
    }
}

} // verus!

//! The rows of the host list: hosts in the order of the document, under the
//! comments and file names that head them.
use crate::paths::{optional_string, path_file_name, path_file_name_of};
use crate::ssh_config::model::{
    ConfigElement, DirectiveView, HostBlock, IncludedFile, SshConfigFile,
};
use crate::state::HostListItem;
use crate::text::{
    chars_of, contains, leading, lemma_leading_is, string_of, trim, trimmed, CharSet,
};
use vstd::prelude::*;
use vstd::slice::slice_subrange;

verus! {

/// What a [`HostListItem`] holds.
pub ghost enum ItemView {
    GroupHeader(Seq<char>),
    Host { index: usize },
}

impl View for HostListItem {
    type V = ItemView;

    open spec fn view(&self) -> ItemView {
        match self {
            HostListItem::GroupHeader(text) => ItemView::GroupHeader(text@),
            HostListItem::Host { index } => ItemView::Host { index: *index },
        }
    }
}

/// The views of a sequence of rows.
pub open spec fn item_views(v: Seq<HostListItem>) -> Seq<ItemView> {
    Seq::new(v.len(), |i: int| v[i]@)
}

/// Whether a stanza with this pattern has a row in the list: no wildcard and
/// no space.
pub open spec fn listed(pattern: Seq<char>) -> bool {
    !pattern.contains('*') && !pattern.contains('?') && !pattern.contains(' ')
}

/// Whether `line` is a comment.
pub open spec fn is_comment(line: Seq<char>) -> bool {
    trimmed(line).len() > 0 && trimmed(line)[0] == '#'
}

/// The text of a comment: the line without surrounding white space, without
/// the `#` signs at its start, and without white space around what is left.
pub open spec fn comment_text(line: Seq<char>) -> Seq<char> {
    let t = trimmed(line);
    trimmed(t.skip(leading(t, '#') as int))
}

/// The header that a line gives: the text of a comment, if it has any.
pub open spec fn comment_header(line: Seq<char>) -> Option<Seq<char>> {
    if is_comment(line) && comment_text(line).len() > 0 {
        Some(comment_text(line))
    } else {
        None
    }
}

/// The header that waits for the next host, after a line outside any stanza. A
/// comment with text becomes the header, a comment without text leaves the one
/// that waits, and any other line drops it.
pub open spec fn pending_after(pending: Option<Seq<char>>, line: Seq<char>) -> Option<Seq<char>> {
    if is_comment(line) {
        match comment_header(line) {
            Some(h) => Some(h),
            None => pending,
        }
    } else {
        None
    }
}

/// The header that the last line of a stanza gives to the stanza that follows.
pub open spec fn trailing_comment(ds: Seq<DirectiveView>) -> Option<Seq<char>> {
    if ds.len() > 0 && ds.last().is_non_directive {
        comment_header(ds.last().raw_line)
    } else {
        None
    }
}

/// The list while it is built: the rows so far, the index of the next host, and
/// the header that waits for it.
pub ghost struct Rows {
    pub items: Seq<ItemView>,
    pub next_host: usize,
    pub pending: Option<Seq<char>>,
}

/// The rows after a listed stanza: the waiting header and the host, as long as
/// there are hosts left to show.
pub open spec fn with_host_row(st: Rows, hosts: usize) -> Rows {
    if st.next_host < hosts {
        Rows {
            items: match st.pending {
                Some(h) => st.items.push(ItemView::GroupHeader(h)),
                None => st.items,
            }.push(ItemView::Host { index: st.next_host }),
            next_host: (st.next_host + 1) as usize,
            pending: None,
        }
    } else {
        st
    }
}

/// Whether one of `elements` is a listed stanza.
pub open spec fn has_listed_host(elements: Seq<ConfigElement>) -> bool {
    exists|i: int|
        0 <= i < elements.len() && (#[trigger] elements[i] matches ConfigElement::HostBlock(b)
            && listed(b.host_pattern@))
}

/// The rows after the elements of the document itself. The last line of a
/// stanza can head the next one; an `Include` shows its files in its place.
pub open spec fn top_rows(st: Rows, elements: Seq<ConfigElement>, hosts: usize) -> Rows
    decreases elements, 0nat,
{
    if elements.len() == 0 {
        st
    } else {
        let before = top_rows(st, elements.drop_last(), hosts);
        match elements.last() {
            ConfigElement::GlobalLine(l) => Rows {
                pending: pending_after(before.pending, l@),
                ..before
            },
            ConfigElement::HostBlock(b) => if listed(b.host_pattern@) {
                Rows {
                    pending: trailing_comment(b@.directives),
                    ..with_host_row(before, hosts)
                }
            } else {
                Rows { pending: None, ..before }
            },
            ConfigElement::Include(inc) => files_rows(
                Rows { pending: None, ..before },
                inc.resolved_files@,
                hosts,
            ),
        }
    }
}

/// The rows after `files`, one after the other.
pub open spec fn files_rows(st: Rows, files: Seq<IncludedFile>, hosts: usize) -> Rows
    decreases files, 0nat,
{
    if files.len() == 0 {
        st
    } else {
        let before = files_rows(st, files.drop_last(), hosts);
        let file = files.last();
        let name = path_file_name_of(file.path@);
        let headed = match name {
            Some(n) => if n.len() > 0 && has_listed_host(file.elements@) {
                before.items.push(ItemView::GroupHeader(n))
            } else {
                before.items
            },
            None => before.items,
        };
        Rows {
            pending: None,
            ..inner_rows(
                Rows { items: headed, next_host: before.next_host, pending: None },
                file.elements@,
                hosts,
            )
        }
    }
}

/// The rows after the elements of an included file, which its name heads.
pub open spec fn inner_rows(st: Rows, elements: Seq<ConfigElement>, hosts: usize) -> Rows
    decreases elements, 0nat,
{
    if elements.len() == 0 {
        st
    } else {
        let before = inner_rows(st, elements.drop_last(), hosts);
        match elements.last() {
            ConfigElement::GlobalLine(l) => Rows {
                pending: pending_after(before.pending, l@),
                ..before
            },
            ConfigElement::HostBlock(b) => if listed(b.host_pattern@) {
                with_host_row(before, hosts)
            } else {
                Rows { pending: None, ..before }
            },
            ConfigElement::Include(inc) => files_rows(
                Rows { pending: None, ..before },
                inc.resolved_files@,
                hosts,
            ),
        }
    }
}

/// The rows of the host list for a document of which `hosts` hosts are shown.
pub open spec fn display_rows(elements: Seq<ConfigElement>, hosts: usize) -> Seq<ItemView> {
    top_rows(Rows { items: Seq::empty(), next_host: 0, pending: None }, elements, hosts).items
}

/// The list while it is built.
struct Builder {
    items: Vec<HostListItem>,
    next_host: usize,
    pending: Option<String>,
}

impl View for Builder {
    type V = Rows;

    closed spec fn view(&self) -> Rows {
        Rows {
            items: item_views(self.items@),
            next_host: self.next_host,
            pending: optional_string(self.pending),
        }
    }
}

/// Whether a stanza with this pattern has a row in the list.
pub fn is_listed(pattern: &str) -> (r: bool)
    ensures
        r == listed(pattern@),
{
    let p = chars_of(pattern);
    let s = p.as_slice();
    proof {
        assert forall|c: char| p@.contains(c) <==> exists|i: int|
            0 <= i < p@.len() && CharSet::Exactly(c).has(#[trigger] p@[i]) by {
            if p@.contains(c) {
                let i = choose|i: int| 0 <= i < p@.len() && p@[i] == c;
                assert(CharSet::Exactly(c).has(p@[i]));
            }
        }
    }
    !contains(s, CharSet::Exactly('*')) && !contains(s, CharSet::Exactly('?')) && !contains(
        s,
        CharSet::Exactly(' '),
    )
}

/// The header that a line gives, and whether the line is a comment at all.
pub fn header_of(line: &str) -> (r: (bool, Option<String>))
    ensures
        r.0 == is_comment(line@),
        optional_string(r.1) == comment_header(line@),
{
    let cs = chars_of(line);
    let t = trim(cs.as_slice());
    if t.len() == 0 || t[0] != '#' {
        return (false, None);
    }
    let mut n: usize = 0;
    while n < t.len() && t[n] == '#'
        invariant
            n <= t.len(),
            forall|k: int| 0 <= k < n ==> #[trigger] t@[k] == '#',
        decreases t.len() - n,
    {
        n += 1;
    }
    proof {
        lemma_leading_is(t@, '#', n as int);
    }
    let text = trim(slice_subrange(t, n, t.len()));
    if text.len() > 0 {
        (true, Some(string_of(text)))
    } else {
        (true, None)
    }
}

impl Builder {
    /// Takes note of a line outside any stanza.
    fn see_line(&mut self, line: &str)
        ensures
            final(self)@ == (Rows { pending: pending_after(old(self)@.pending, line@), ..old(self)@ }),
    {
        let (comment, header) = header_of(line);
        if comment {
            if header.is_some() {
                self.pending = header;
            }
        } else {
            self.pending = None;
        }
    }

    /// Adds the row of a listed stanza.
    fn add_host_row(&mut self, hosts: usize)
        ensures
            final(self)@ == with_host_row(old(self)@, hosts),
    {
        if self.next_host < hosts {
            let ghost before = item_views(self.items@);
            let ghost mut headed = before;
            match self.pending.take() {
                Some(h) => {
                    let item = HostListItem::GroupHeader(h);
                    proof {
                        assert(item_views(self.items@.push(item)) =~= before.push(item@));
                        headed = before.push(item@);
                    }
                    self.items.push(item);
                },
                None => {},
            }
            let item = HostListItem::Host { index: self.next_host };
            proof {
                assert(item_views(self.items@.push(item)) =~= headed.push(item@));
            }
            self.items.push(item);
            self.next_host += 1;
        }
    }

    /// Adds a group header.
    fn add_header(&mut self, text: String)
        ensures
            final(self)@ == (Rows {
                items: old(self)@.items.push(ItemView::GroupHeader(text@)),
                ..old(self)@
            }),
    {
        let item = HostListItem::GroupHeader(text);
        proof {
            assert(item_views(self.items@.push(item)) =~= item_views(self.items@).push(item@));
        }
        self.items.push(item);
    }

    /// Drops the header that waits.
    fn drop_pending(&mut self)
        ensures
            final(self)@ == (Rows { pending: None, ..old(self)@ }),
    {
        self.pending = None;
    }
}

/// The header that the last line of a stanza gives to the stanza that follows.
fn trailing_comment_of(block: &HostBlock) -> (r: Option<String>)
    ensures
        optional_string(r) == trailing_comment(block@.directives),
{
    let n = block.directives.len();
    if n == 0 {
        return None;
    }
    let d = &block.directives[n - 1];
    assert(block@.directives.last() == d@);
    if !d.is_non_directive {
        return None;
    }
    header_of(d.raw_line.as_str()).1
}

/// Whether one of `elements` is a listed stanza.
fn any_listed(elements: &Vec<ConfigElement>) -> (r: bool)
    ensures
        r == has_listed_host(elements@),
{
    let mut i: usize = 0;
    while i < elements.len()
        invariant
            i <= elements.len(),
            forall|k: int|
                0 <= k < i ==> !(#[trigger] elements@[k] matches ConfigElement::HostBlock(b)
                    && listed(b.host_pattern@)),
        decreases elements.len() - i,
    {
        match &elements[i] {
            ConfigElement::HostBlock(b) => {
                if is_listed(b.host_pattern.as_str()) {
                    return true;
                }
            },
            _ => {},
        }
        i += 1;
    }
    false
}

/// Adds the rows of `files`.
fn add_files(builder: &mut Builder, files: &Vec<IncludedFile>, hosts: usize)
    ensures
        final(builder)@ == files_rows(old(builder)@, files@, hosts),
    decreases files, 1nat,
{
    let ghost start = builder@;
    let mut j: usize = 0;
    proof {
        assert(files@.take(0) =~= Seq::<IncludedFile>::empty());
    }
    while j < files.len()
        invariant
            j <= files.len(),
            builder@ == files_rows(start, files@.take(j as int), hosts),
        decreases files.len() - j,
    {
        let file = &files[j];
        proof {
            reveal_with_fuel(files_rows, 2);
            let t = files@.take(j as int + 1);
            assert(t.drop_last() =~= files@.take(j as int));
            assert(t.last() == *file);
            assert(decreases_to!(files => *file));
        }
        match path_file_name(file.path.as_str()) {
            Some(name) => {
                if !name.as_str().is_empty() && any_listed(&file.elements) {
                    builder.add_header(name);
                }
            },
            None => {},
        }
        builder.drop_pending();
        add_inner(builder, &file.elements, hosts);
        builder.drop_pending();
        j += 1;
    }
    proof {
        assert(files@.take(j as int) =~= files@);
    }
}

/// Adds the rows of the elements of an included file.
fn add_inner(builder: &mut Builder, elements: &Vec<ConfigElement>, hosts: usize)
    ensures
        final(builder)@ == inner_rows(old(builder)@, elements@, hosts),
    decreases elements, 0nat,
{
    let ghost start = builder@;
    let mut i: usize = 0;
    proof {
        assert(elements@.take(0) =~= Seq::<ConfigElement>::empty());
    }
    while i < elements.len()
        invariant
            i <= elements.len(),
            builder@ == inner_rows(start, elements@.take(i as int), hosts),
        decreases elements.len() - i,
    {
        proof {
            reveal_with_fuel(inner_rows, 2);
            let t = elements@.take(i as int + 1);
            assert(t.drop_last() =~= elements@.take(i as int));
            assert(t.last() == elements@[i as int]);
        }
        match &elements[i] {
            ConfigElement::GlobalLine(line) => {
                builder.see_line(line.as_str());
            },
            ConfigElement::HostBlock(block) => {
                if is_listed(block.host_pattern.as_str()) {
                    builder.add_host_row(hosts);
                } else {
                    builder.drop_pending();
                }
            },
            ConfigElement::Include(inc) => {
                proof {
                    let e = elements[i as int];
                    assert(decreases_to!(elements => e));
                    assert(decreases_to!(e => e->Include_0));
                }
                builder.drop_pending();
                add_files(builder, &inc.resolved_files, hosts);
            },
        }
        i += 1;
    }
    proof {
        assert(elements@.take(i as int) =~= elements@);
    }
}

/// The rows of the host list for a document of which `hosts` hosts are shown:
/// each host under the comment that stands directly above its stanza, and the
/// hosts of an included file under the name of the file.
pub fn build_display_list(config: &SshConfigFile, hosts: usize) -> (items: Vec<HostListItem>)
    ensures
        item_views(items@) == display_rows(config.elements@, hosts),
{
    let mut builder = Builder { items: Vec::new(), next_host: 0, pending: None };
    let ghost start = builder@;
    let elements = &config.elements;
    let mut i: usize = 0;
    proof {
        assert(start.items =~= Seq::<ItemView>::empty());
        assert(elements@.take(0) =~= Seq::<ConfigElement>::empty());
    }
    while i < elements.len()
        invariant
            i <= elements.len(),
            builder@ == top_rows(start, elements@.take(i as int), hosts),
        decreases elements.len() - i,
    {
        proof {
            reveal_with_fuel(top_rows, 2);
            let t = elements@.take(i as int + 1);
            assert(t.drop_last() =~= elements@.take(i as int));
            assert(t.last() == elements@[i as int]);
        }
        match &elements[i] {
            ConfigElement::GlobalLine(line) => {
                builder.see_line(line.as_str());
            },
            ConfigElement::HostBlock(block) => {
                if is_listed(block.host_pattern.as_str()) {
                    builder.add_host_row(hosts);
                    let next = trailing_comment_of(block);
                    builder.pending = next;
                } else {
                    builder.drop_pending();
                }
            },
            ConfigElement::Include(inc) => {
                builder.drop_pending();
                add_files(&mut builder, &inc.resolved_files, hosts);
            },
        }
        i += 1;
    }
    proof {
        assert(elements@.take(i as int) =~= elements@);
    }
    builder.items
}

/// The number of terminal columns that a text takes, as
/// `unicode_width::UnicodeWidthStr::width` counts them.
pub uninterp spec fn display_width(s: Seq<char>) -> usize;

/// The number of terminal columns that `s` takes, by
/// `unicode_width::UnicodeWidthStr::width`. The result is a function of the
/// text alone.
#[verifier::external_body]
fn text_width(s: &str) -> (w: usize)
    ensures
        w == display_width(s@),
{
    unicode_width::UnicodeWidthStr::width(s)
}

/// The column of the cursor after a text of `columns` columns in a field that
/// begins at column `x` and is `width` columns wide, border included: one
/// column past the border and the text, never beyond the last column of the
/// screen. There is none if it would not stand inside the field.
pub open spec fn cursor_after(x: u16, width: u16, columns: usize) -> Option<u16> {
    let past: int = x + 1 + if columns < 0xffff {
        columns as int
    } else {
        0xffff
    };
    let column: int = if past < 0xffff {
        past
    } else {
        0xffff
    };
    if column < x + width - 1 {
        Some(column as u16)
    } else {
        None
    }
}

/// The column of the cursor at the end of `value` in a field that begins at
/// column `x` and is `width` columns wide.
pub fn cursor_column(x: u16, width: u16, value: &str) -> (column: Option<u16>)
    requires
        1 <= x + width <= u16::MAX,
    ensures
        column == cursor_after(x, width, display_width(value@)),
{
    let columns = text_width(value);
    let shown: u16 = if columns < 0xffff {
        columns as u16
    } else {
        0xffff
    };
    let column = x.saturating_add(1).saturating_add(shown);
    if column < x + width - 1 {
        Some(column)
    } else {
        None
    }
}

/// A rectangle on the screen: its left column, its top row, its width and its
/// height.
pub ghost struct Area {
    pub x: u16,
    pub y: u16,
    pub width: u16,
    pub height: u16,
}

/// The rectangle of the given size in the middle of `area`, no larger than
/// `area` itself.
pub open spec fn centered_in(area: Area, width: u16, height: u16) -> Area {
    Area {
        x: (area.x + (if area.width > width {
            area.width - width
        } else {
            0
        }) / 2) as u16,
        y: (area.y + (if area.height > height {
            area.height - height
        } else {
            0
        }) / 2) as u16,
        width: if width < area.width {
            width
        } else {
            area.width
        },
        height: if height < area.height {
            height
        } else {
            area.height
        },
    }
}

/// The rectangle of the given size in the middle of the area that begins at
/// `(x, y)` and is `area_width` wide and `area_height` high: its left column,
/// top row, width and height.
pub fn centered_fixed(
    x: u16,
    y: u16,
    area_width: u16,
    area_height: u16,
    width: u16,
    height: u16,
) -> (r: (u16, u16, u16, u16))
    requires
        x + area_width <= u16::MAX,
        y + area_height <= u16::MAX,
    ensures
        (Area { x: r.0, y: r.1, width: r.2, height: r.3 }) == centered_in(
            Area { x, y, width: area_width, height: area_height },
            width,
            height,
        ),
{
    let free_x: u16 = if area_width > width {
        area_width - width
    } else {
        0
    };
    let free_y: u16 = if area_height > height {
        area_height - height
    } else {
        0
    };
    (
        x + free_x / 2,
        y + free_y / 2,
        if width < area_width {
            width
        } else {
            area_width
        },
        if height < area_height {
            height
        } else {
            area_height
        },
    )
}

} // verus!

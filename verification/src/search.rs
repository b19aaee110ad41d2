//! Searching the host list: which hosts a query matches, which row is
//! selected, and which tags there are.
use crate::display::{item_views, ItemView};
use crate::split::strings;
use crate::ssh_config::model::{entry_views, HostEntry, HostEntryView};
use crate::state::HostListItem;
use crate::text::{chars_of, same, starts_with};
use vstd::prelude::*;
use vstd::slice::slice_subrange;

verus! {

/// What `str::to_lowercase` makes of a text.
pub uninterp spec fn lowercased(s: Seq<char>) -> Seq<char>;

/// `s` in lower case by `str::to_lowercase`. The result is a function of the
/// text alone.
#[verifier::external_body]
pub(crate) fn to_lowercase(s: &str) -> (r: String)
    ensures
        r@ == lowercased(s@),
{
    s.to_lowercase()
}

/// Whether `needle` stands somewhere in `hay`.
pub open spec fn occurs_in(needle: Seq<char>, hay: Seq<char>) -> bool {
    exists|i: int|
        0 <= i && i + needle.len() <= hay.len() && #[trigger] hay.subrange(i, i + needle.len())
            == needle
}

/// Whether some tag in lower case is `wanted`.
pub open spec fn has_tag(tags: Seq<Seq<char>>, wanted: Seq<char>) -> bool {
    exists|k: int| 0 <= k < tags.len() && lowercased(#[trigger] tags[k]) == wanted
}

/// Whether `wanted` stands in some tag in lower case.
pub open spec fn has_tag_with(tags: Seq<Seq<char>>, wanted: Seq<char>) -> bool {
    exists|k: int| 0 <= k < tags.len() && occurs_in(wanted, lowercased(#[trigger] tags[k]))
}

/// Whether a host matches a query in lower case. The empty query matches every
/// host; `tag=` asks for a tag exactly and `tag:` for a part of one; any other
/// query matches if it stands in the alias, the host name, the user or a tag,
/// all taken in lower case.
pub open spec fn matches_query(h: HostEntryView, q: Seq<char>) -> bool {
    if q.len() == 0 {
        true
    } else if "tag="@.is_prefix_of(q) {
        has_tag(h.tags, q.skip("tag="@.len() as int))
    } else if "tag:"@.is_prefix_of(q) {
        has_tag_with(h.tags, q.skip("tag:"@.len() as int))
    } else {
        occurs_in(q, lowercased(h.alias)) || occurs_in(q, lowercased(h.hostname)) || occurs_in(
            q,
            lowercased(h.user),
        ) || has_tag_with(h.tags, q)
    }
}

/// The indices of the hosts that match a query in lower case, in order.
pub open spec fn filtered(hosts: Seq<HostEntryView>, q: Seq<char>) -> Seq<usize>
    decreases hosts.len(),
{
    if hosts.len() == 0 {
        seq![]
    } else {
        let before = filtered(hosts.drop_last(), q);
        if matches_query(hosts.last(), q) {
            before.push((hosts.len() - 1) as usize)
        } else {
            before
        }
    }
}

/// Whether a row is the row of a host.
pub open spec fn is_host_row(item: ItemView) -> bool {
    item is Host
}

/// The row that is `offset` rows from `current`, around the ends.
pub open spec fn row_at(current: int, offset: int, len: int, forward: bool) -> int {
    if forward {
        (current + offset) % len
    } else {
        (current + len - offset) % len
    }
}

/// Whether `row` is the nearest host row from `current` in the given
/// direction, around the ends; the current row itself comes last.
pub open spec fn nearest_host_row(
    items: Seq<ItemView>,
    current: usize,
    forward: bool,
    row: Option<usize>,
) -> bool {
    let len = items.len() as int;
    match row {
        Some(r) => exists|offset: int|
            {
                &&& 1 <= offset <= len
                &&& r == #[trigger] row_at(current as int, offset, len, forward)
                &&& is_host_row(items[r as int])
                &&& forall|o: int|
                    1 <= o < offset ==> !is_host_row(
                        items[#[trigger] row_at(current as int, o, len, forward)],
                    )
            },
        None => forall|i: int| 0 <= i < len ==> !is_host_row(#[trigger] items[i]),
    }
}

/// The host that is selected: the row's host in the list, the row's entry
/// among the matches while searching.
pub open spec fn selected_host(
    items: Seq<ItemView>,
    matches: Seq<usize>,
    searching: bool,
    selected: Option<usize>,
) -> Option<usize> {
    match selected {
        None => None,
        Some(sel) => if searching {
            if sel < matches.len() {
                Some(matches[sel as int])
            } else {
                None
            }
        } else if sel < items.len() {
            match items[sel as int] {
                ItemView::Host { index } => Some(index),
                ItemView::GroupHeader(_) => None,
            }
        } else {
            None
        },
    }
}

/// The tags of all hosts, each once, in the order they first appear.
pub open spec fn unique_tags(hosts: Seq<HostEntryView>) -> Seq<Seq<char>>
    decreases hosts.len(),
{
    if hosts.len() == 0 {
        seq![]
    } else {
        with_all_unique(unique_tags(hosts.drop_last()), hosts.last().tags)
    }
}

/// `acc` and then each of `tags` that is not there yet.
pub open spec fn with_all_unique(acc: Seq<Seq<char>>, tags: Seq<Seq<char>>) -> Seq<Seq<char>>
    decreases tags.len(),
{
    if tags.len() == 0 {
        acc
    } else {
        crate::ssh_config::resolve::with_unique(
            with_all_unique(acc, tags.drop_last()),
            tags.last(),
        )
    }
}

/// Whether `needle` stands somewhere in `hay`.
pub fn contains_text(hay: &[char], needle: &[char]) -> (r: bool)
    ensures
        r == occurs_in(needle@, hay@),
{
    if needle.len() > hay.len() {
        return false;
    }
    let last: usize = hay.len() - needle.len();
    let mut i: usize = 0;
    loop
        invariant
            i <= last,
            last == hay.len() - needle.len(),
            forall|k: int| 0 <= k < i ==> #[trigger] hay@.subrange(k, k + needle@.len()) != needle@,
        decreases last - i,
    {
        if same(slice_subrange(hay, i, i + needle.len()), needle) {
            return true;
        }
        if i == last {
            return false;
        }
        i += 1;
    }
}

/// Whether `wanted` stands in `text` taken in lower case.
fn lower_contains(text: &str, wanted: &[char]) -> (r: bool)
    ensures
        r == occurs_in(wanted@, lowercased(text@)),
{
    let lower = to_lowercase(text);
    let cs = chars_of(lower.as_str());
    contains_text(cs.as_slice(), wanted)
}

/// Whether some tag in lower case is `wanted`.
fn any_tag_is(tags: &Vec<String>, wanted: &[char]) -> (r: bool)
    ensures
        r == has_tag(strings(tags@), wanted@),
{
    let mut k: usize = 0;
    while k < tags.len()
        invariant
            k <= tags.len(),
            forall|j: int| 0 <= j < k ==> lowercased(#[trigger] strings(tags@)[j]) != wanted@,
        decreases tags.len() - k,
    {
        let lower = to_lowercase(tags[k].as_str());
        let cs = chars_of(lower.as_str());
        if same(cs.as_slice(), wanted) {
            assert(lowercased(strings(tags@)[k as int]) == wanted@);
            return true;
        }
        k += 1;
    }
    false
}

/// Whether `wanted` stands in some tag in lower case.
fn any_tag_contains(tags: &Vec<String>, wanted: &[char]) -> (r: bool)
    ensures
        r == has_tag_with(strings(tags@), wanted@),
{
    let mut k: usize = 0;
    while k < tags.len()
        invariant
            k <= tags.len(),
            forall|j: int|
                0 <= j < k ==> !occurs_in(wanted@, lowercased(#[trigger] strings(tags@)[j])),
        decreases tags.len() - k,
    {
        if lower_contains(tags[k].as_str(), wanted) {
            assert(occurs_in(wanted@, lowercased(strings(tags@)[k as int])));
            return true;
        }
        k += 1;
    }
    false
}

/// Whether a host matches a query in lower case.
fn host_matches(host: &HostEntry, q: &[char]) -> (r: bool)
    ensures
        r == matches_query(host@, q@),
{
    if q.len() == 0 {
        return true;
    }
    let exact = chars_of("tag=");
    let part = chars_of("tag:");
    if starts_with(q, exact.as_slice()) {
        any_tag_is(&host.tags, slice_subrange(q, exact.len(), q.len()))
    } else if starts_with(q, part.as_slice()) {
        any_tag_contains(&host.tags, slice_subrange(q, part.len(), q.len()))
    } else {
        lower_contains(host.alias.as_str(), q) || lower_contains(host.hostname.as_str(), q)
            || lower_contains(host.user.as_str(), q) || any_tag_contains(&host.tags, q)
    }
}

/// The indices of the hosts that match `query`, whatever its case.
pub fn filter_hosts(hosts: &[HostEntry], query: &str) -> (out: Vec<usize>)
    ensures
        out@ == filtered(entry_views(hosts@), lowercased(query@)),
{
    let lower = to_lowercase(query);
    let q = chars_of(lower.as_str());
    let ghost all = entry_views(hosts@);
    let mut out: Vec<usize> = Vec::new();
    let mut i: usize = 0;
    proof {
        assert(all.take(0) =~= Seq::<HostEntryView>::empty());
    }
    while i < hosts.len()
        invariant
            i <= hosts.len(),
            all == entry_views(hosts@),
            q@ == lowercased(query@),
            out@ == filtered(all.take(i as int), q@),
        decreases hosts.len() - i,
    {
        proof {
            let t = all.take(i as int + 1);
            assert(t.drop_last() =~= all.take(i as int));
            assert(t.last() == hosts@[i as int]@);
        }
        if host_matches(&hosts[i], q.as_slice()) {
            out.push(i);
        }
        i += 1;
    }
    proof {
        assert(all.take(i as int) =~= all);
    }
    out
}

/// Whether the row `i` of `items` is the row of a host.
fn host_row(items: &Vec<HostListItem>, i: usize) -> (r: bool)
    requires
        i < items.len(),
    ensures
        r == is_host_row(item_views(items@)[i as int]),
{
    match &items[i] {
        HostListItem::Host { .. } => true,
        HostListItem::GroupHeader(_) => false,
    }
}

/// The nearest host row from `current` in the given direction, around the
/// ends. Without a host row there is none.
pub fn next_host_row(items: &Vec<HostListItem>, current: usize, forward: bool) -> (row: Option<
    usize,
>)
    ensures
        nearest_host_row(item_views(items@), current, forward, row),
{
    let len = items.len();
    if len == 0 {
        return None;
    }
    let mut offset: usize = 1;
    loop
        invariant
            1 <= offset <= len,
            len == items.len(),
            len > 0,
            forall|o: int|
                1 <= o < offset ==> !is_host_row(
                    item_views(items@)[#[trigger] row_at(current as int, o, len as int, forward)],
                ),
        decreases len - offset,
    {
        let wide: u128 = if forward {
            (current as u128 + offset as u128) % (len as u128)
        } else {
            (current as u128 + len as u128 - offset as u128) % (len as u128)
        };
        let idx = wide as usize;
        assert(idx == row_at(current as int, offset as int, len as int, forward));
        if host_row(items, idx) {
            proof {
                let iv = item_views(items@);
                let n = iv.len() as int;
                let off = offset as int;
                assert(n == len);
                assert(idx == row_at(current as int, off, n, forward));
                assert(is_host_row(iv[idx as int]));
                assert forall|o: int| 1 <= o < off implies !is_host_row(
                    iv[#[trigger] row_at(current as int, o, n, forward)],
                ) by {}
                assert(nearest_host_row(iv, current, forward, Some(idx)));
            }
            return Some(idx);
        }
        if offset == len {
            proof {
                assert forall|i: int| 0 <= i < len implies !is_host_row(
                    #[trigger] item_views(items@)[i],
                ) by {
                    let o = if forward {
                        let d = (i - (current as int) % (len as int) + len) % (len as int);
                        if d == 0 {
                            len as int
                        } else {
                            d
                        }
                    } else {
                        let d = ((current as int) % (len as int) - i + len) % (len as int);
                        if d == 0 {
                            len as int
                        } else {
                            d
                        }
                    };
                    lemma_row_reached(current as int, i, len as int, forward, o);
                }
            }
            return None;
        }
        offset += 1;
    }
}

/// Every row is reached from `current` by some offset between 1 and `len`.
proof fn lemma_row_reached(current: int, i: int, len: int, forward: bool, o: int)
    requires
        0 <= current,
        0 <= i < len,
        o == if forward {
            let d = (i - current % len + len) % len;
            if d == 0 {
                len
            } else {
                d
            }
        } else {
            let d = (current % len - i + len) % len;
            if d == 0 {
                len
            } else {
                d
            }
        },
    ensures
        1 <= o <= len,
        row_at(current, o, len, forward) == i,
{
    let c = current % len;
    assert(current == len * (current / len) + c) by (nonlinear_arith)
        requires
            len > 0,
            c == current % len,
    ;
    let q = current / len;
    if forward {
        let d = (i - c + len) % len;
        if i >= c {
            assert(d == i - c) by (nonlinear_arith)
                requires
                    d == (i - c + len) % len,
                    0 <= i - c < len,
            ;
        } else {
            assert(d == i - c + len) by (nonlinear_arith)
                requires
                    d == (i - c + len) % len,
                    0 <= i - c + len < len,
            ;
        }
        assert((current + o) % len == i) by (nonlinear_arith)
            requires
                current == len * q + c,
                0 <= i < len,
                0 <= c < len,
                (o == i - c && i > c) || (o == i - c + len && i <= c),
                len > 0,
        ;
    } else {
        let d = (c - i + len) % len;
        if c >= i {
            assert(d == c - i) by (nonlinear_arith)
                requires
                    d == (c - i + len) % len,
                    0 <= c - i < len,
            ;
        } else {
            assert(d == c - i + len) by (nonlinear_arith)
                requires
                    d == (c - i + len) % len,
                    0 <= c - i + len < len,
            ;
        }
        assert((current + len - o) % len == i) by (nonlinear_arith)
            requires
                current == len * q + c,
                0 <= i < len,
                0 <= c < len,
                (o == c - i && c > i) || (o == c - i + len && c <= i),
                len > 0,
        ;
    }
}

/// The first host row, if there is one.
pub fn first_host_row(items: &Vec<HostListItem>) -> (row: Option<usize>)
    ensures
        match row {
            Some(r) => r < items.len() && is_host_row(item_views(items@)[r as int]) && forall|
                i: int,
            | 0 <= i < r ==> !is_host_row(#[trigger] item_views(items@)[i]),
            None => forall|i: int|
                0 <= i < items.len() ==> !is_host_row(#[trigger] item_views(items@)[i]),
        },
{
    let mut i: usize = 0;
    while i < items.len()
        invariant
            i <= items.len(),
            forall|k: int| 0 <= k < i ==> !is_host_row(#[trigger] item_views(items@)[k]),
        decreases items.len() - i,
    {
        if host_row(items, i) {
            return Some(i);
        }
        i += 1;
    }
    None
}

/// The index of the host that is selected.
pub fn selected_host_index(
    items: &Vec<HostListItem>,
    matches: &Vec<usize>,
    searching: bool,
    selected: Option<usize>,
) -> (host: Option<usize>)
    ensures
        host == selected_host(item_views(items@), matches@, searching, selected),
{
    match selected {
        None => None,
        Some(sel) => {
            if searching {
                if sel < matches.len() {
                    Some(matches[sel])
                } else {
                    None
                }
            } else if sel < items.len() {
                match &items[sel] {
                    HostListItem::Host { index } => Some(*index),
                    HostListItem::GroupHeader(_) => None,
                }
            } else {
                None
            }
        },
    }
}

/// The tags of all hosts, each once, in the order they first appear.
pub fn collect_unique_tags(hosts: &[HostEntry]) -> (tags: Vec<String>)
    ensures
        strings(tags@) == unique_tags(entry_views(hosts@)),
{
    let ghost all = entry_views(hosts@);
    let mut tags: Vec<String> = Vec::new();
    let mut i: usize = 0;
    proof {
        assert(all.take(0) =~= Seq::<HostEntryView>::empty());
        assert(strings(tags@) =~= Seq::<Seq<char>>::empty());
    }
    while i < hosts.len()
        invariant
            i <= hosts.len(),
            all == entry_views(hosts@),
            strings(tags@) == unique_tags(all.take(i as int)),
        decreases hosts.len() - i,
    {
        let host = &hosts[i];
        let ghost mine = strings(host.tags@);
        let ghost base = strings(tags@);
        proof {
            let t = all.take(i as int + 1);
            assert(t.drop_last() =~= all.take(i as int));
            assert(t.last() == host@);
            assert(mine.take(0) =~= Seq::<Seq<char>>::empty());
        }
        let mut k: usize = 0;
        while k < host.tags.len()
            invariant
                k <= host.tags.len(),
                mine == strings(host.tags@),
                strings(tags@) == with_all_unique(base, mine.take(k as int)),
            decreases host.tags.len() - k,
        {
            proof {
                let t = mine.take(k as int + 1);
                assert(t.drop_last() =~= mine.take(k as int));
                assert(t.last() == host.tags@[k as int]@);
            }
            crate::ssh_config::resolve::push_unique(&mut tags, host.tags[k].clone());
            k += 1;
        }
        proof {
            assert(mine.take(k as int) =~= mine);
        }
        i += 1;
    }
    proof {
        assert(all.take(i as int) =~= all);
    }
    tags
}

/// The field of a host in which a query is shown to match.
#[derive(Debug, Clone, Copy, PartialEq, Eq, Structural)]
pub enum MatchedField {
    Nothing,
    Alias,
    Hostname,
    User,
}

/// The field in which a query in lower case is shown to match: the first of
/// alias, host name and user in which it stands, each taken in lower case. The
/// empty query is shown nowhere.
pub open spec fn shown_match(h: HostEntryView, q: Seq<char>) -> MatchedField {
    if q.len() == 0 {
        MatchedField::Nothing
    } else if occurs_in(q, lowercased(h.alias)) {
        MatchedField::Alias
    } else if occurs_in(q, lowercased(h.hostname)) {
        MatchedField::Hostname
    } else if occurs_in(q, lowercased(h.user)) {
        MatchedField::User
    } else {
        MatchedField::Nothing
    }
}

/// The field of `host` in which `query` is shown to match, whatever its case.
pub fn matched_field(host: &HostEntry, query: &str) -> (field: MatchedField)
    ensures
        field == shown_match(host@, lowercased(query@)),
{
    let lower = to_lowercase(query);
    let q = chars_of(lower.as_str());
    if q.len() == 0 {
        MatchedField::Nothing
    } else if lower_contains(host.alias.as_str(), q.as_slice()) {
        MatchedField::Alias
    } else if lower_contains(host.hostname.as_str(), q.as_slice()) {
        MatchedField::Hostname
    } else if lower_contains(host.user.as_str(), q.as_slice()) {
        MatchedField::User
    } else {
        MatchedField::Nothing
    }
}

} // verus!

//! Putting the hosts in order: by alias, by host name, or by how recently each
//! was connected to. Hosts that rank alike keep the order they have.
use crate::history::{entry_position, history_views, ConnectionHistory};
use crate::search::lowercased;
use crate::ssh_config::model::{entry_views, HostEntry, HostEntryView};
use crate::ssh_config::persistence::text_le;
use crate::text::chars_of;
use vstd::prelude::*;

verus! {

/// Whether `order` lists each of the indices below `n` once, such that
/// `before` holds of every two that follow each other, in that direction.
pub open spec fn in_order(order: Seq<usize>, n: nat, before: spec_fn(usize, usize) -> bool) -> bool {
    &&& order.len() == n
    &&& forall|i: int| 0 <= i < n ==> #[trigger] order[i] < n
    &&& forall|i: int, j: int| 0 <= i < j < n ==> before(#[trigger] order[i], #[trigger] order[j])
}

/// Whether `before` puts the indices below `n` in a line: of two different
/// indices one comes before the other, and what comes before something that
/// comes before a third comes before the third.
pub open spec fn lines_up(n: nat, before: spec_fn(usize, usize) -> bool) -> bool {
    &&& forall|a: usize, b: usize|
        a < n && b < n && a != b ==> #[trigger] before(a, b) || #[trigger] before(b, a)
    &&& forall|a: usize, b: usize, c: usize|
        a < n && b < n && c < n && #[trigger] before(a, b) && #[trigger] before(b, c) ==> before(
            a,
            c,
        )
}

/// Whether index `a` comes before index `b` by the texts `keys`: its text
/// stands first in the order of strings, or the texts are the same and `a` is
/// the smaller index.
pub open spec fn text_before(keys: Seq<Seq<char>>, a: usize, b: usize) -> bool {
    if keys[a as int] == keys[b as int] {
        a < b
    } else {
        text_le(keys[a as int], keys[b as int])
    }
}

/// Whether index `a` comes before index `b` by the times `stamps`: its time is
/// the later one, or the times are the same and `a` is the smaller index.
pub open spec fn later_before(stamps: Seq<u64>, a: usize, b: usize) -> bool {
    if stamps[a as int] == stamps[b as int] {
        a < b
    } else {
        stamps[a as int] > stamps[b as int]
    }
}

/// The alias of each host in lower case.
pub open spec fn alias_keys(hosts: Seq<HostEntryView>) -> Seq<Seq<char>> {
    Seq::new(hosts.len(), |i: int| lowercased(hosts[i].alias))
}

/// The host name of each host in lower case.
pub open spec fn hostname_keys(hosts: Seq<HostEntryView>) -> Seq<Seq<char>> {
    Seq::new(hosts.len(), |i: int| lowercased(hosts[i].hostname))
}

/// When a host was last connected to, 0 if never.
pub open spec fn last_seen(history: ConnectionHistory, alias: Seq<char>) -> u64 {
    let es = history_views(history.entries@);
    let i = entry_position(es, alias);
    if 0 <= i < es.len() {
        es[i].last_connected
    } else {
        0
    }
}

/// When each host was last connected to.
pub open spec fn recency_keys(hosts: Seq<HostEntryView>, history: ConnectionHistory) -> Seq<u64> {
    Seq::new(hosts.len(), |i: int| last_seen(history, hosts[i].alias))
}

/// Of two texts one stands before the other or they are the same.
pub proof fn lemma_text_le_total(a: Seq<char>, b: Seq<char>)
    ensures
        text_le(a, b) || text_le(b, a),
    decreases a.len(),
{
    if a.len() > 0 && b.len() > 0 {
        if a[0] == b[0] {
            lemma_text_le_total(a.drop_first(), b.drop_first());
        } else {
            vstd::utf8::char_u32_cast(a[0], a[0] as u32);
            vstd::utf8::char_u32_cast(b[0], b[0] as u32);
        }
    }
}

/// Two texts that stand before each other are the same.
pub proof fn lemma_text_le_antisymmetric(a: Seq<char>, b: Seq<char>)
    requires
        text_le(a, b),
        text_le(b, a),
    ensures
        a == b,
    decreases a.len(),
{
    if a.len() > 0 && b.len() > 0 {
        lemma_text_le_antisymmetric(a.drop_first(), b.drop_first());
        assert(a =~= seq![a[0]] + a.drop_first());
        assert(b =~= seq![b[0]] + b.drop_first());
    } else {
        assert(a =~= b);
    }
}

/// The order of strings carries over: what stands before something that
/// stands before a third stands before the third.
pub proof fn lemma_text_le_transitive(a: Seq<char>, b: Seq<char>, c: Seq<char>)
    requires
        text_le(a, b),
        text_le(b, c),
    ensures
        text_le(a, c),
    decreases a.len(),
{
    if a.len() > 0 && b.len() > 0 && c.len() > 0 && a[0] == b[0] && b[0] == c[0] {
        lemma_text_le_transitive(a.drop_first(), b.drop_first(), c.drop_first());
    }
}

/// Texts put the indices in a line.
pub proof fn lemma_text_before_lines_up(keys: Seq<Seq<char>>)
    ensures
        lines_up(keys.len(), |a: usize, b: usize| text_before(keys, a, b)),
{
    let n = keys.len();
    let before = |a: usize, b: usize| text_before(keys, a, b);
    assert forall|a: usize, b: usize| a < n && b < n && a != b implies #[trigger] before(a, b)
        || #[trigger] before(b, a) by {
        lemma_text_le_total(keys[a as int], keys[b as int]);
    }
    assert forall|a: usize, b: usize, c: usize|
        a < n && b < n && c < n && #[trigger] before(a, b) && #[trigger] before(b, c) implies before(
        a,
        c,
    ) by {
        let x = keys[a as int];
        let y = keys[b as int];
        let z = keys[c as int];
        if x != y && y != z {
            lemma_text_le_transitive(x, y, z);
            if x == z {
                lemma_text_le_antisymmetric(x, y);
            }
        }
    }
}

/// Times put the indices in a line.
pub proof fn lemma_later_before_lines_up(stamps: Seq<u64>)
    ensures
        lines_up(stamps.len(), |a: usize, b: usize| later_before(stamps, a, b)),
{
}

/// Whether `a` stands before `b`, or is `b`, in the order of strings.
pub fn text_le_of(a: &[char], b: &[char]) -> (r: bool)
    ensures
        r == text_le(a@, b@),
{
    let mut i: usize = 0;
    proof {
        assert(a@.skip(0) =~= a@);
        assert(b@.skip(0) =~= b@);
    }
    while i < a.len() && i < b.len()
        invariant
            i <= a.len(),
            i <= b.len(),
            text_le(a@, b@) == text_le(a@.skip(i as int), b@.skip(i as int)),
        decreases a.len() - i,
    {
        proof {
            assert(a@.skip(i as int)[0] == a@[i as int]);
            assert(b@.skip(i as int)[0] == b@[i as int]);
            assert(a@.skip(i as int).drop_first() =~= a@.skip(i as int + 1));
            assert(b@.skip(i as int).drop_first() =~= b@.skip(i as int + 1));
        }
        if a[i] != b[i] {
            return (a[i] as u32) < (b[i] as u32);
        }
        i += 1;
    }
    i == a.len()
}

/// The indices below `n`, put in order by `before`.
fn sort_indices<F: Fn(usize, usize) -> bool>(
    n: usize,
    before: &F,
    Ghost(rel): Ghost<spec_fn(usize, usize) -> bool>,
) -> (order: Vec<usize>)
    requires
        forall|a: usize, b: usize| a < n && b < n ==> call_requires(*before, (a, b)),
        forall|a: usize, b: usize, r: bool|
            #[trigger] call_ensures(*before, (a, b), r) ==> r == rel(a, b),
        lines_up(n as nat, rel),
    ensures
        in_order(order@, n as nat, rel),
{
    let mut order: Vec<usize> = Vec::new();
    let mut k: usize = 0;
    while k < n
        invariant
            k <= n,
            forall|a: usize, b: usize| a < n && b < n ==> call_requires(*before, (a, b)),
            forall|a: usize, b: usize, r: bool|
                #[trigger] call_ensures(*before, (a, b), r) ==> r == rel(a, b),
            lines_up(n as nat, rel),
            in_order(order@, k as nat, rel),
        decreases n - k,
    {
        let mut p: usize = k;
        while p > 0 && before(k, order[p - 1])
            invariant
                p <= k,
                k < n,
                order@.len() == k,
                forall|i: int| 0 <= i < k ==> #[trigger] order@[i] < k,
                forall|a: usize, b: usize| a < n && b < n ==> call_requires(*before, (a, b)),
                forall|a: usize, b: usize, r: bool|
                    #[trigger] call_ensures(*before, (a, b), r) ==> r == rel(a, b),
                forall|j: int| p <= j < k ==> rel(k, #[trigger] order@[j]),
            decreases p,
        {
            p -= 1;
        }
        let ghost old_order = order@;
        proof {
            if p > 0 {
                let prev = old_order[p - 1];
                assert(prev < k);
                assert(!rel(k, prev));
                assert(rel(prev, k));
                assert forall|i: int| 0 <= i < p implies rel(#[trigger] old_order[i], k) by {
                    if i < p - 1 {
                        assert(rel(old_order[i], old_order[p - 1]));
                        assert(old_order[i] < n && prev < n);
                    }
                }
            }
        }
        order.insert(p, k);
        proof {
            let new_order = order@;
            assert forall|i: int, j: int| 0 <= i < j < k + 1 implies rel(
                #[trigger] new_order[i],
                #[trigger] new_order[j],
            ) by {
                if j < p {
                    assert(new_order[i] == old_order[i] && new_order[j] == old_order[j]);
                } else if j == p {
                    assert(new_order[i] == old_order[i]);
                } else if i < p {
                    assert(new_order[i] == old_order[i] && new_order[j] == old_order[j - 1]);
                } else if i == p {
                    assert(new_order[j] == old_order[j - 1]);
                } else {
                    assert(new_order[i] == old_order[i - 1] && new_order[j] == old_order[j - 1]);
                }
            }
            assert forall|i: int| 0 <= i < k + 1 implies #[trigger] new_order[i] < k + 1 by {
                if i < p {
                    assert(new_order[i] == old_order[i]);
                } else if i > p {
                    assert(new_order[i] == old_order[i - 1]);
                }
            }
        }
        k += 1;
    }
    order
}

/// The indices of `keys`, put in the order of their texts; indices with the
/// same text keep their order.
pub fn order_by_text(keys: &Vec<Vec<char>>) -> (order: Vec<usize>)
    ensures
        in_order(
            order@,
            keys@.len(),
            |a: usize, b: usize| text_before(crate::split::texts(keys@), a, b),
        ),
{
    let ghost texts = crate::split::texts(keys@);
    let ghost rel = |a: usize, b: usize| text_before(texts, a, b);
    let before = |a: usize, b: usize| -> (r: bool)
        requires
            a < keys.len(),
            b < keys.len(),
        ensures
            r == text_before(crate::split::texts(keys@), a, b),
        {
            if crate::text::same(keys[a].as_slice(), keys[b].as_slice()) {
                a < b
            } else {
                text_le_of(keys[a].as_slice(), keys[b].as_slice())
            }
        };
    proof {
        lemma_text_before_lines_up(texts);
    }
    sort_indices(keys.len(), &before, Ghost(rel))
}

/// The indices of `stamps`, the latest time first; indices with the same time
/// keep their order.
pub fn order_by_time(stamps: &Vec<u64>) -> (order: Vec<usize>)
    ensures
        in_order(order@, stamps@.len(), |a: usize, b: usize| later_before(stamps@, a, b)),
{
    let ghost rel = |a: usize, b: usize| later_before(stamps@, a, b);
    let before = |a: usize, b: usize| -> (r: bool)
        requires
            a < stamps.len(),
            b < stamps.len(),
        ensures
            r == later_before(stamps@, a, b),
        {
            if stamps[a] == stamps[b] {
                a < b
            } else {
                stamps[a] > stamps[b]
            }
        };
    proof {
        lemma_later_before_lines_up(stamps@);
    }
    sort_indices(stamps.len(), &before, Ghost(rel))
}

/// The hosts ordered by alias, whatever the case of its letters.
pub fn order_by_alias(hosts: &[HostEntry]) -> (order: Vec<usize>)
    ensures
        in_order(
            order@,
            hosts@.len(),
            |a: usize, b: usize| text_before(alias_keys(entry_views(hosts@)), a, b),
        ),
{
    let mut keys: Vec<Vec<char>> = Vec::new();
    let mut i: usize = 0;
    while i < hosts.len()
        invariant
            i <= hosts.len(),
            keys@.len() == i,
            forall|k: int| 0 <= k < i ==> (#[trigger] keys@[k])@ == lowercased(hosts@[k].alias@),
        decreases hosts.len() - i,
    {
        let lower = crate::search::to_lowercase(hosts[i].alias.as_str());
        keys.push(chars_of(lower.as_str()));
        i += 1;
    }
    let order = order_by_text(&keys);
    proof {
        assert(crate::split::texts(keys@) =~= alias_keys(entry_views(hosts@)));
    }
    order
}

/// The hosts ordered by host name, whatever the case of its letters.
pub fn order_by_hostname(hosts: &[HostEntry]) -> (order: Vec<usize>)
    ensures
        in_order(
            order@,
            hosts@.len(),
            |a: usize, b: usize| text_before(hostname_keys(entry_views(hosts@)), a, b),
        ),
{
    let mut keys: Vec<Vec<char>> = Vec::new();
    let mut i: usize = 0;
    while i < hosts.len()
        invariant
            i <= hosts.len(),
            keys@.len() == i,
            forall|k: int|
                0 <= k < i ==> (#[trigger] keys@[k])@ == lowercased(hosts@[k].hostname@),
        decreases hosts.len() - i,
    {
        let lower = crate::search::to_lowercase(hosts[i].hostname.as_str());
        keys.push(chars_of(lower.as_str()));
        i += 1;
    }
    let order = order_by_text(&keys);
    proof {
        assert(crate::split::texts(keys@) =~= hostname_keys(entry_views(hosts@)));
    }
    order
}

/// The hosts ordered by their last connection, the most recent first.
pub fn order_by_recency(hosts: &[HostEntry], history: &ConnectionHistory) -> (order: Vec<usize>)
    ensures
        in_order(
            order@,
            hosts@.len(),
            |a: usize, b: usize| later_before(recency_keys(entry_views(hosts@), *history), a, b),
        ),
{
    let mut stamps: Vec<u64> = Vec::new();
    let mut i: usize = 0;
    while i < hosts.len()
        invariant
            i <= hosts.len(),
            stamps@.len() == i,
            forall|k: int|
                0 <= k < i ==> #[trigger] stamps@[k] == last_seen(*history, hosts@[k].alias@),
        decreases hosts.len() - i,
    {
        stamps.push(history.last_connected(hosts[i].alias.as_str()));
        i += 1;
    }
    let order = order_by_time(&stamps);
    proof {
        assert(stamps@ =~= recency_keys(entry_views(hosts@), *history));
    }
    order
}

} // verus!

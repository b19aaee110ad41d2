//! Connection history: when each host was last connected to, and how often.
use crate::number::{decimal, decimal_chars, parse_u32, parse_u64, parsed_u32, parsed_u64};
use crate::text::{chars_of, find, index_of, str_eq, string_of, CharSet};
use vstd::prelude::*;
use vstd::slice::slice_subrange;

verus! {

/// What is remembered of one host.
#[derive(Debug, Clone)]
pub struct HistoryEntry {
    pub alias: String,
    /// Seconds since the epoch of the last connection.
    pub last_connected: u64,
    pub count: u32,
}

/// What a [`HistoryEntry`] holds.
pub ghost struct HistoryEntryView {
    pub alias: Seq<char>,
    pub last_connected: u64,
    pub count: u32,
}

impl View for HistoryEntry {
    type V = HistoryEntryView;

    open spec fn view(&self) -> HistoryEntryView {
        HistoryEntryView {
            alias: self.alias@,
            last_connected: self.last_connected,
            count: self.count,
        }
    }
}

/// The history of all hosts. A well-formed history has one entry for each
/// alias at most; every operation keeps it so.
#[derive(Debug, Clone)]
pub struct ConnectionHistory {
    pub entries: Vec<HistoryEntry>,
    /// Where the history is kept.
    pub path: String,
}

/// The views of a sequence of entries.
pub open spec fn history_views(v: Seq<HistoryEntry>) -> Seq<HistoryEntryView> {
    Seq::new(v.len(), |i: int| v[i]@)
}

/// Position of the entry for `alias`, or `es.len()`.
pub open spec fn entry_position(es: Seq<HistoryEntryView>, alias: Seq<char>) -> int
    decreases es.len(),
{
    if es.len() == 0 || es[0].alias == alias {
        0
    } else {
        1 + entry_position(es.drop_first(), alias)
    }
}

/// The entries after a connection to `alias` at the time `now`: its entry is
/// stamped and counts one more, or a first entry is made for it.
pub open spec fn recorded(es: Seq<HistoryEntryView>, alias: Seq<char>, now: u64) -> Seq<
    HistoryEntryView,
> {
    let i = entry_position(es, alias);
    if 0 <= i < es.len() {
        es.update(
            i,
            HistoryEntryView {
                alias: es[i].alias,
                last_connected: now,
                count: (es[i].count + 1) as u32,
            },
        )
    } else {
        es.push(HistoryEntryView { alias, last_connected: now, count: 1 })
    }
}

/// The entries after `e` is put in: in place of the entry for its alias, or as
/// a new one.
pub open spec fn with_entry(es: Seq<HistoryEntryView>, e: HistoryEntryView) -> Seq<
    HistoryEntryView,
> {
    let i = entry_position(es, e.alias);
    if 0 <= i < es.len() {
        es.update(i, e)
    } else {
        es.push(e)
    }
}

/// How long ago `timestamp` was at the time `now`, in the largest unit that
/// fits: minutes, hours, days or weeks. A timestamp of 0 means never and gives
/// no text; less than a minute is `just now`.
pub open spec fn time_ago(timestamp: u64, now: u64) -> Seq<char> {
    let diff: nat = if now >= timestamp {
        (now - timestamp) as nat
    } else {
        0
    };
    if timestamp == 0 {
        Seq::empty()
    } else if diff < 60 {
        "just now"@
    } else if diff < 3600 {
        decimal(diff / 60) + "m ago"@
    } else if diff < 86400 {
        decimal(diff / 3600) + "h ago"@
    } else if diff < 604800 {
        decimal(diff / 86400) + "d ago"@
    } else {
        decimal(diff / 604800) + "w ago"@
    }
}

/// The entry that a line of the history file gives: an alias, a timestamp and
/// a count, separated by tabs.
pub open spec fn history_entry(line: Seq<char>) -> Option<HistoryEntryView> {
    let tab = CharSet::Exactly('\t');
    let a = index_of(line, tab);
    let rest = line.skip(a + 1);
    let b = index_of(rest, tab);
    if 0 <= a < line.len() && 0 <= b < rest.len() {
        match (parsed_u64(rest.take(b)), parsed_u32(rest.skip(b + 1))) {
            (Some(last_connected), Some(count)) => Some(
                HistoryEntryView { alias: line.take(a), last_connected, count },
            ),
            _ => None,
        }
    } else {
        None
    }
}

/// The line of the history file for an entry.
pub open spec fn history_line(e: HistoryEntryView) -> Seq<char> {
    e.alias + "\t"@ + decimal(e.last_connected as nat) + "\t"@ + decimal(e.count as nat)
}

/// Whether no two entries are for the same alias.
pub open spec fn distinct_aliases(es: Seq<HistoryEntryView>) -> bool {
    forall|i: int, j: int| 0 <= i < j < es.len() ==> es[i].alias != es[j].alias
}

/// `entry_position` is the first entry for the alias, and there is none before.
pub proof fn lemma_entry_position(es: Seq<HistoryEntryView>, alias: Seq<char>)
    ensures
        0 <= entry_position(es, alias) <= es.len(),
        forall|i: int| 0 <= i < entry_position(es, alias) ==> (#[trigger] es[i]).alias != alias,
        entry_position(es, alias) < es.len() ==> es[entry_position(es, alias)].alias == alias,
    decreases es.len(),
{
    if !(es.len() == 0 || es[0].alias == alias) {
        let t = es.drop_first();
        lemma_entry_position(t, alias);
        let n = entry_position(es, alias);
        assert forall|i: int| 0 <= i < n implies (#[trigger] es[i]).alias != alias by {
            if i > 0 {
                assert(es[i] == t[i - 1]);
            }
        }
        if n < es.len() {
            assert(es[n] == t[n - 1]);
        }
    }
}

/// Putting an entry in keeps the aliases distinct, if the entry that it
/// replaces is for the same alias.
pub proof fn lemma_with_entry_distinct(es: Seq<HistoryEntryView>, e: HistoryEntryView)
    requires
        distinct_aliases(es),
    ensures
        distinct_aliases(with_entry(es, e)),
{
    lemma_entry_position(es, e.alias);
    let pos = entry_position(es, e.alias);
    let out = with_entry(es, e);
    assert forall|i: int, j: int| 0 <= i < j < out.len() implies out[i].alias != out[j].alias by {
        if pos < es.len() {
            assert(out[i].alias == es[i].alias);
            assert(out[j].alias == es[j].alias);
        } else if j == es.len() {
            assert(out[i] == es[i]);
        }
    }
}

/// `entry_position` is determined by the first entry for the alias.
pub proof fn lemma_entry_position_is(es: Seq<HistoryEntryView>, alias: Seq<char>, n: int)
    requires
        0 <= n <= es.len(),
        forall|i: int| 0 <= i < n ==> (#[trigger] es[i]).alias != alias,
        n < es.len() ==> es[n].alias == alias,
    ensures
        entry_position(es, alias) == n,
    decreases es.len(),
{
    if n > 0 {
        let t = es.drop_first();
        assert(es[0].alias != alias);
        assert forall|i: int| 0 <= i < n - 1 implies (#[trigger] t[i]).alias != alias by {
            assert(t[i] == es[i + 1]);
        }
        lemma_entry_position_is(t, alias, n - 1);
    }
}

/// The seconds since the epoch by the system clock, 0 if the clock stands
/// before the epoch. Nothing is claimed of the result: it is the time.
#[verifier::external_body]
fn unix_now() -> (now: u64) {
    std::time::SystemTime::now().duration_since(std::time::UNIX_EPOCH).unwrap_or_default().as_secs()
}

/// `n` in decimal notation, then `unit`.
fn amount(n: u64, unit: &str) -> (out: String)
    ensures
        out@ == decimal(n as nat) + unit@,
{
    let mut out = string_of(decimal_chars(n).as_slice());
    out.append(unit);
    out
}

impl ConnectionHistory {
    /// Whether the history is well formed: it has one entry for each alias at
    /// most.
    pub open spec fn wf(&self) -> bool {
        distinct_aliases(history_views(self.entries@))
    }

    /// An empty history that is kept at `path`.
    pub fn new(path: String) -> (h: Self)
        ensures
            h.path == path,
            h.entries@.len() == 0,
            h.wf(),
    {
        ConnectionHistory { entries: Vec::new(), path }
    }

    /// Position of the entry for `alias`.
    pub fn position(&self, alias: &str) -> (pos: usize)
        ensures
            pos == entry_position(history_views(self.entries@), alias@),
            pos <= self.entries.len(),
    {
        let ghost es = history_views(self.entries@);
        let mut i: usize = 0;
        while i < self.entries.len()
            invariant
                i <= self.entries.len(),
                es == history_views(self.entries@),
                forall|k: int| 0 <= k < i ==> (#[trigger] es[k]).alias != alias@,
            decreases self.entries.len() - i,
        {
            if str_eq(self.entries[i].alias.as_str(), alias) {
                proof {
                    assert(es[i as int].alias == alias@);
                    lemma_entry_position_is(es, alias@, i as int);
                }
                return i;
            }
            i += 1;
        }
        proof {
            lemma_entry_position_is(es, alias@, i as int);
        }
        i
    }

    /// Whether one more connection to `alias` can be counted.
    pub open spec fn can_count(&self, alias: Seq<char>) -> bool {
        let es = history_views(self.entries@);
        let i = entry_position(es, alias);
        0 <= i < es.len() ==> es[i].count < u32::MAX
    }

    /// Records a connection to `alias` at the time `now`.
    pub fn record_at(&mut self, alias: &str, now: u64)
        requires
            old(self).can_count(alias@),
        ensures
            final(self).path == old(self).path,
            history_views(final(self).entries@) == recorded(
                history_views(old(self).entries@),
                alias@,
                now,
            ),
            old(self).wf() ==> final(self).wf(),
    {
        proof {
            let es = history_views(self.entries@);
            let i = entry_position(es, alias@);
            lemma_entry_position(es, alias@);
            if self.wf() {
                let e = if 0 <= i < es.len() {
                    HistoryEntryView {
                        alias: es[i].alias,
                        last_connected: now,
                        count: (es[i].count + 1) as u32,
                    }
                } else {
                    HistoryEntryView { alias: alias@, last_connected: now, count: 1 }
                };
                lemma_with_entry_distinct(es, e);
                assert(with_entry(es, e) == recorded(es, alias@, now));
            }
        }
        let pos = self.position(alias);
        let ghost es = history_views(self.entries@);
        if pos < self.entries.len() {
            let entry = HistoryEntry {
                alias: self.entries[pos].alias.clone(),
                last_connected: now,
                count: self.entries[pos].count + 1,
            };
            proof {
                assert(history_views(self.entries@.update(pos as int, entry)) =~= es.update(
                    pos as int,
                    entry@,
                ));
            }
            self.entries.set(pos, entry);
        } else {
            let entry = HistoryEntry {
                alias: String::from_str(alias),
                last_connected: now,
                count: 1,
            };
            proof {
                assert(history_views(self.entries@.push(entry)) =~= es.push(entry@));
            }
            self.entries.push(entry);
        }
    }

    /// Records a connection to `alias` at the present time.
    pub fn record(&mut self, alias: &str)
        requires
            old(self).can_count(alias@),
        ensures
            final(self).path == old(self).path,
            exists|now: u64|
                history_views(final(self).entries@) == #[trigger] recorded(
                    history_views(old(self).entries@),
                    alias@,
                    now,
                ),
            old(self).wf() ==> final(self).wf(),
    {
        let now = unix_now();
        self.record_at(alias, now);
    }

    /// Puts `entry` into the history, in place of the entry for its alias if
    /// there is one.
    pub fn insert(&mut self, entry: HistoryEntry)
        ensures
            final(self).path == old(self).path,
            history_views(final(self).entries@) == with_entry(
                history_views(old(self).entries@),
                entry@,
            ),
            old(self).wf() ==> final(self).wf(),
    {
        proof {
            if self.wf() {
                lemma_with_entry_distinct(history_views(self.entries@), entry@);
            }
        }
        let pos = self.position(entry.alias.as_str());
        let ghost es = history_views(self.entries@);
        if pos < self.entries.len() {
            proof {
                assert(history_views(self.entries@.update(pos as int, entry)) =~= es.update(
                    pos as int,
                    entry@,
                ));
            }
            self.entries.set(pos, entry);
        } else {
            proof {
                assert(history_views(self.entries@.push(entry)) =~= es.push(entry@));
            }
            self.entries.push(entry);
        }
    }

    /// When `alias` was last connected to, 0 if never.
    pub fn last_connected(&self, alias: &str) -> (t: u64)
        ensures
            t == ({
                let es = history_views(self.entries@);
                let i = entry_position(es, alias@);
                if 0 <= i < es.len() {
                    es[i].last_connected
                } else {
                    0
                }
            }),
    {
        let pos = self.position(alias);
        if pos < self.entries.len() {
            self.entries[pos].last_connected
        } else {
            0
        }
    }

    /// How long ago `timestamp` was at the time `now`.
    pub fn format_time_ago_at(timestamp: u64, now: u64) -> (out: String)
        ensures
            out@ == time_ago(timestamp, now),
    {
        if timestamp == 0 {
            return String::new();
        }
        let diff: u64 = if now >= timestamp {
            now - timestamp
        } else {
            0
        };
        if diff < 60 {
            String::from_str("just now")
        } else if diff < 3600 {
            amount(diff / 60, "m ago")
        } else if diff < 86400 {
            amount(diff / 3600, "h ago")
        } else if diff < 604800 {
            amount(diff / 86400, "d ago")
        } else {
            amount(diff / 604800, "w ago")
        }
    }

    /// How long ago `timestamp` was at the present time.
    pub fn format_time_ago(timestamp: u64) -> (out: String)
        ensures
            exists|now: u64| out@ == #[trigger] time_ago(timestamp, now),
    {
        let now = unix_now();
        Self::format_time_ago_at(timestamp, now)
    }

    /// The entry that a line of the history file gives.
    pub fn parse_line(line: &str) -> (r: Option<HistoryEntry>)
        ensures
            match r {
                Some(e) => history_entry(line@) == Some(e@),
                None => history_entry(line@) is None,
            },
    {
        let cs = chars_of(line);
        let s = cs.as_slice();
        let a = find(s, CharSet::Exactly('\t'));
        if a >= s.len() {
            return None;
        }
        let rest = slice_subrange(s, a + 1, s.len());
        let b = find(rest, CharSet::Exactly('\t'));
        if b >= rest.len() {
            return None;
        }
        let last = parse_u64(slice_subrange(rest, 0, b));
        let count = parse_u32(slice_subrange(rest, b + 1, rest.len()));
        match (last, count) {
            (Some(last_connected), Some(count)) => Some(
                HistoryEntry {
                    alias: string_of(slice_subrange(s, 0, a)),
                    last_connected,
                    count,
                },
            ),
            _ => None,
        }
    }

    /// The line of the history file for `entry`.
    pub fn format_line(entry: &HistoryEntry) -> (line: String)
        ensures
            line@ == history_line(entry@),
    {
        let mut line = entry.alias.clone();
        line.append("\t");
        let last = string_of(decimal_chars(entry.last_connected).as_slice());
        line.append(last.as_str());
        line.append("\t");
        let count = string_of(decimal_chars(entry.count as u64).as_slice());
        line.append(count.as_str());
        line
    }
}

impl Default for ConnectionHistory {
    /// The empty history without a path.
    fn default() -> (h: Self)
        ensures
            h.entries@.len() == 0,
            h.path@.len() == 0,
            h.wf(),
    {
        ConnectionHistory { entries: Vec::new(), path: String::new() }
    }
}

} // verus!

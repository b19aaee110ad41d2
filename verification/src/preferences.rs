//! The preferences file: lines of `key=value`, comments and blank lines.
use crate::split::{join, lemma_join_push, lines_of, split_lines, texts};
use crate::state::SortMode;
use crate::text::{chars_of, find, index_of, same, string_of, trim, trimmed, CharSet};
use vstd::prelude::*;
use vstd::slice::slice_subrange;

verus! {

/// The value that a line sets for the sort mode, if it sets one: the line is no
/// comment, and what stands before its first `=` is `sort_mode`, white space
/// aside.
pub open spec fn sort_mode_value(line: Seq<char>) -> Option<Seq<char>> {
    let t = trimmed(line);
    let eq = index_of(t, CharSet::Exactly('='));
    if t.len() > 0 && t[0] != '#' && 0 <= eq < t.len() && trimmed(t.take(eq)) == "sort_mode"@ {
        Some(trimmed(t.skip(eq + 1)))
    } else {
        None
    }
}

/// The sort mode that the first line of `lines` to set one sets, the original
/// order if none does.
pub open spec fn sort_mode_of(lines: Seq<Seq<char>>) -> SortMode
    decreases lines.len(),
{
    if lines.len() == 0 {
        SortMode::Original
    } else {
        match sort_mode_value(lines[0]) {
            Some(v) => SortMode::of_key(v),
            None => sort_mode_of(lines.drop_first()),
        }
    }
}

/// The line that sets the sort mode to `mode`.
pub open spec fn sort_mode_line(mode: SortMode) -> Seq<char> {
    "sort_mode="@ + mode.key()
}

/// `lines` with every line that sets the sort mode replaced by the line for
/// `mode`.
pub open spec fn replaced(lines: Seq<Seq<char>>, mode: SortMode) -> Seq<Seq<char>> {
    Seq::new(
        lines.len(),
        |i: int|
            if sort_mode_value(lines[i]) is Some {
                sort_mode_line(mode)
            } else {
                lines[i]
            },
    )
}

/// Whether some line sets the sort mode.
pub open spec fn sets_sort_mode(lines: Seq<Seq<char>>) -> bool {
    exists|i: int| 0 <= i < lines.len() && sort_mode_value(#[trigger] lines[i]) is Some
}

/// The preferences with the sort mode set to `mode`: every line that sets it is
/// replaced, a line is added at the end if none does, and every other line
/// stays. The text ends in a line feed.
pub open spec fn with_sort_mode(content: Seq<char>, mode: SortMode) -> Seq<char> {
    let lines = lines_of(content);
    let out = if sets_sort_mode(lines) {
        replaced(lines, mode)
    } else {
        replaced(lines, mode).push(sort_mode_line(mode))
    };
    join(out, seq!['\n']).push('\n')
}

/// The value that a line sets for the sort mode.
fn parse_sort_mode_line(line: &[char]) -> (r: Option<String>)
    ensures
        match r {
            Some(v) => sort_mode_value(line@) == Some(v@),
            None => sort_mode_value(line@) is None,
        },
{
    let t = trim(line);
    if t.len() == 0 || t[0] == '#' {
        return None;
    }
    let eq = find(t, CharSet::Exactly('='));
    if eq >= t.len() {
        return None;
    }
    let key = trim(slice_subrange(t, 0, eq));
    let wanted = chars_of("sort_mode");
    if same(key, wanted.as_slice()) {
        Some(string_of(trim(slice_subrange(t, eq + 1, t.len()))))
    } else {
        None
    }
}

/// The sort mode that the preferences in `content` set.
pub fn sort_mode_in(content: &str) -> (mode: SortMode)
    ensures
        mode == sort_mode_of(lines_of(content@)),
{
    let text = chars_of(content);
    let lines = split_lines(text.as_slice());
    let ghost all = lines_of(content@);
    let mut i: usize = 0;
    proof {
        assert(all.skip(0) =~= all);
    }
    while i < lines.len()
        invariant
            i <= lines.len(),
            texts(lines@) == all,
            all == lines_of(content@),
            sort_mode_of(all) == sort_mode_of(all.skip(i as int)),
        decreases lines.len() - i,
    {
        proof {
            assert(all.skip(i as int)[0] == lines@[i as int]@);
            assert(all.skip(i as int).drop_first() =~= all.skip(i as int + 1));
        }
        match parse_sort_mode_line(lines[i].as_slice()) {
            Some(value) => {
                return SortMode::from_key(value.as_str());
            },
            None => {},
        }
        i += 1;
    }
    SortMode::Original
}

/// The preferences in `content` with the sort mode set to `mode`.
pub fn set_sort_mode(content: &str, mode: SortMode) -> (out: String)
    ensures
        out@ == with_sort_mode(content@, mode),
{
    let text = chars_of(content);
    let lines = split_lines(text.as_slice());
    let ghost all = lines_of(content@);
    let mut setting = String::from_str("sort_mode=");
    setting.append(mode.to_key());
    let mut out = String::new();
    let mut found = false;
    let mut i: usize = 0;
    proof {
        assert(replaced(all, mode).take(0) =~= Seq::<Seq<char>>::empty());
        reveal_strlit("\n");
        assert("\n"@ =~= seq!['\n']);
    }
    while i < lines.len()
        invariant
            i <= lines.len(),
            texts(lines@) == all,
            setting@ == sort_mode_line(mode),
            "\n"@ == seq!['\n'],
            out@ == join(replaced(all, mode).take(i as int), seq!['\n']),
            found == exists|k: int| 0 <= k < i && sort_mode_value(#[trigger] all[k]) is Some,
        decreases lines.len() - i,
    {
        let ghost before = replaced(all, mode).take(i as int);
        proof {
            assert(all[i as int] == lines@[i as int]@);
            lemma_join_push(before, seq!['\n'], replaced(all, mode)[i as int]);
            assert(replaced(all, mode).take(i as int + 1) =~= before.push(
                replaced(all, mode)[i as int],
            ));
        }
        if i > 0 {
            out.append("\n");
        }
        match parse_sort_mode_line(lines[i].as_slice()) {
            Some(_) => {
                out.append(setting.as_str());
                found = true;
            },
            None => {
                let line = string_of(lines[i].as_slice());
                out.append(line.as_str());
            },
        }
        proof {
            if i == 0 {
                assert(Seq::<char>::empty() + replaced(all, mode)[0] =~= replaced(all, mode)[0]);
            }
        }
        i += 1;
    }
    proof {
        assert(replaced(all, mode).take(i as int) =~= replaced(all, mode));
        assert(found == sets_sort_mode(all));
    }
    if !found {
        proof {
            lemma_join_push(replaced(all, mode), seq!['\n'], setting@);
        }
        if lines.len() > 0 {
            out.append("\n");
        }
        out.append(setting.as_str());
        proof {
            if lines.len() == 0 {
                assert(Seq::<char>::empty() + setting@ =~= setting@);
            }
        }
    }
    out.append("\n");
    proof {
        let lines_out = if sets_sort_mode(all) {
            replaced(all, mode)
        } else {
            replaced(all, mode).push(sort_mode_line(mode))
        };
        assert(out@ =~= join(lines_out, seq!['\n']).push('\n'));
    }
    out
}

} // verus!

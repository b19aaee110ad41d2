//! Looking one stanza up, in the document or in a file included from it.
use crate::split::{join, lemma_join_push};
use crate::ssh_config::model::{
    ConfigElement, DirectiveView, HostBlock, HostBlockView, IncludedFile,
};
use crate::ssh_config::writer::raw_lines;
use crate::text::str_eq;
use vstd::prelude::*;

verus! {

/// The lines of a stanza, joined by line feeds.
pub open spec fn block_text(b: HostBlockView) -> Seq<char> {
    join(
        seq![b.raw_host_line] + raw_lines(b.directives),
        seq!['\n'],
    )
}

/// The first stanza of `elements`, or of a file included from them, whose
/// pattern is exactly `alias`, depth first.
pub open spec fn first_block(elements: Seq<ConfigElement>, alias: Seq<char>) -> Option<
    HostBlockView,
>
    decreases elements, 0nat,
{
    if elements.len() == 0 {
        None
    } else {
        match first_block(elements.drop_last(), alias) {
            Some(b) => Some(b),
            None => match elements.last() {
                ConfigElement::HostBlock(b) => if b@.host_pattern == alias {
                    Some(b@)
                } else {
                    None
                },
                ConfigElement::GlobalLine(_) => None,
                ConfigElement::Include(inc) => first_block_in_files(inc.resolved_files@, alias),
            },
        }
    }
}

/// The first stanza in `files` whose pattern is exactly `alias`.
pub open spec fn first_block_in_files(files: Seq<IncludedFile>, alias: Seq<char>) -> Option<
    HostBlockView,
>
    decreases files, 0nat,
{
    if files.len() == 0 {
        None
    } else {
        match first_block_in_files(files.drop_last(), alias) {
            Some(b) => Some(b),
            None => first_block(files.last().elements@, alias),
        }
    }
}

/// Key and value of each real directive, in order.
pub open spec fn key_values(ds: Seq<DirectiveView>) -> Seq<(Seq<char>, Seq<char>)>
    decreases ds.len(),
{
    if ds.len() == 0 {
        seq![]
    } else if ds.last().is_non_directive {
        key_values(ds.drop_last())
    } else {
        key_values(ds.drop_last()).push((ds.last().key, ds.last().value))
    }
}

/// The texts of a sequence of pairs of strings.
pub open spec fn pairs(v: Seq<(String, String)>) -> Seq<(Seq<char>, Seq<char>)> {
    Seq::new(v.len(), |i: int| (v[i].0@, v[i].1@))
}

/// The first stanza whose pattern is exactly `alias`.
fn find_block<'a>(elements: &'a Vec<ConfigElement>, alias: &str) -> (r: Option<&'a HostBlock>)
    ensures
        match r {
            Some(b) => first_block(elements@, alias@) == Some(b@),
            None => first_block(elements@, alias@) is None,
        },
    decreases elements,
{
    let mut i: usize = 0;
    proof {
        assert(elements@.take(0) =~= Seq::<ConfigElement>::empty());
    }
    while i < elements.len()
        invariant
            i <= elements.len(),
            first_block(elements@.take(i as int), alias@) is None,
        decreases elements.len() - i,
    {
        proof {
            reveal_with_fuel(first_block, 2);
            let t = elements@.take(i as int + 1);
            assert(t.drop_last() =~= elements@.take(i as int));
            assert(t.last() == elements@[i as int]);
        }
        let ghost upto = elements@.take(i as int + 1);
        match &elements[i] {
            ConfigElement::HostBlock(block) => {
                if str_eq(block.host_pattern.as_str(), alias) {
                    proof {
                        lemma_first_block_extends(elements@, alias@, i as int + 1);
                    }
                    return Some(block);
                }
            },
            ConfigElement::GlobalLine(_) => {},
            ConfigElement::Include(inc) => {
                let mut j: usize = 0;
                let ghost files = inc.resolved_files@;
                proof {
                    assert(files.take(0) =~= Seq::<IncludedFile>::empty());
                }
                while j < inc.resolved_files.len()
                    invariant
                        j <= inc.resolved_files.len(),
                        i < elements.len(),
                        elements@[i as int] == ConfigElement::Include(*inc),
                        files == inc.resolved_files@,
                        upto == elements@.take(i as int + 1),
                        first_block(elements@.take(i as int), alias@) is None,
                        first_block_in_files(files.take(j as int), alias@) is None,
                    decreases inc.resolved_files.len() - j,
                {
                    let file = &inc.resolved_files[j];
                    proof {
                        reveal_with_fuel(first_block_in_files, 2);
                        assert(decreases_to!(elements => elements[i as int]));
                        assert(decreases_to!(elements[i as int] => elements[i as int]->Include_0));
                        assert(decreases_to!(inc.resolved_files => inc.resolved_files[j as int]));
                        let t = files.take(j as int + 1);
                        assert(t.drop_last() =~= files.take(j as int));
                        assert(t.last() == *file);
                    }
                    match find_block(&file.elements, alias) {
                        Some(b) => {
                            proof {
                                lemma_first_block_in_files_extends(files, alias@, j as int + 1);
                                reveal_with_fuel(first_block, 2);
                                assert(upto.drop_last() =~= elements@.take(i as int));
                                assert(upto.last() == elements@[i as int]);
                                assert(first_block(upto, alias@) == Some(b@));
                                lemma_first_block_extends(elements@, alias@, i as int + 1);
                            }
                            return Some(b);
                        },
                        None => {},
                    }
                    j += 1;
                }
                proof {
                    assert(files.take(j as int) =~= files);
                }
            },
        }
        i += 1;
    }
    proof {
        assert(elements@.take(i as int) =~= elements@);
    }
    None
}

/// A stanza found among the first elements is the one found among all.
proof fn lemma_first_block_extends(elements: Seq<ConfigElement>, alias: Seq<char>, n: int)
    requires
        0 <= n <= elements.len(),
        first_block(elements.take(n), alias) is Some,
    ensures
        first_block(elements, alias) == first_block(elements.take(n), alias),
    decreases elements.len() - n,
{
    if n < elements.len() {
        let t = elements.take(n + 1);
        assert(t.drop_last() =~= elements.take(n));
        reveal_with_fuel(first_block, 2);
        assert(first_block(t, alias) == first_block(elements.take(n), alias));
        lemma_first_block_extends(elements, alias, n + 1);
    } else {
        assert(elements.take(n) =~= elements);
    }
}

/// A stanza found among the first files is the one found among all.
proof fn lemma_first_block_in_files_extends(files: Seq<IncludedFile>, alias: Seq<char>, n: int)
    requires
        0 <= n <= files.len(),
        first_block_in_files(files.take(n), alias) is Some,
    ensures
        first_block_in_files(files, alias) == first_block_in_files(files.take(n), alias),
    decreases files.len() - n,
{
    if n < files.len() {
        let t = files.take(n + 1);
        assert(t.drop_last() =~= files.take(n));
        reveal_with_fuel(first_block_in_files, 2);
        assert(first_block_in_files(t, alias) == first_block_in_files(files.take(n), alias));
        lemma_first_block_in_files_extends(files, alias, n + 1);
    } else {
        assert(files.take(n) =~= files);
    }
}

/// The text of the first stanza whose pattern is exactly `alias`, in the
/// document or in a file included from it: its lines joined by line feeds.
pub fn serialize_host_block(elements: &Vec<ConfigElement>, alias: &str) -> (r: Option<String>)
    ensures
        match first_block(elements@, alias@) {
            Some(b) => r is Some && r->0@ == block_text(b),
            None => r is None,
        },
{
    match find_block(elements, alias) {
        Some(block) => {
            let mut out = block.raw_host_line.clone();
            let ghost ds = block@.directives;
            let ghost head = seq![block@.raw_host_line];
            let mut i: usize = 0;
            proof {
                assert(raw_lines(ds).take(0) =~= Seq::<
                    Seq<char>,
                >::empty());
                assert(head + Seq::<Seq<char>>::empty() =~= head);
            }
            while i < block.directives.len()
                invariant
                    i <= block.directives.len(),
                    ds == block@.directives,
                    head == seq![block@.raw_host_line],
                    out@ == join(
                        head + raw_lines(ds).take(i as int),
                        seq!['\n'],
                    ),
                decreases block.directives.len() - i,
            {
                let d = &block.directives[i];
                let ghost lines = head + raw_lines(ds).take(i as int);
                proof {
                    lemma_join_push(lines, seq!['\n'], d.raw_line@);
                    assert(head + raw_lines(ds).take(i as int + 1)
                        =~= lines.push(d.raw_line@));
                    reveal_strlit("\n");
                    assert("\n"@ =~= seq!['\n']);
                }
                out.append("\n");
                out.append(d.raw_line.as_str());
                i += 1;
            }
            proof {
                assert(raw_lines(ds).take(i as int)
                    =~= raw_lines(ds));
            }
            Some(out)
        },
        None => None,
    }
}

/// Key and value of each real directive of the stanza for `alias`.
///
/// The stanza is the first of `elements` whose pattern is exactly `alias`. An
/// `Include` that stands before it answers in its place if one of its files
/// gives directives; a file gives what its own elements give by this rule.
pub open spec fn host_directives(elements: Seq<ConfigElement>, alias: Seq<char>) -> Seq<
    (Seq<char>, Seq<char>),
>
    decreases elements, 0nat,
{
    if elements.len() == 0 {
        seq![]
    } else {
        match elements[0] {
            ConfigElement::HostBlock(b) => if b@.host_pattern == alias {
                key_values(b@.directives)
            } else {
                host_directives(elements.drop_first(), alias)
            },
            ConfigElement::GlobalLine(_) => host_directives(elements.drop_first(), alias),
            ConfigElement::Include(inc) => {
                let found = files_directives(inc.resolved_files@, alias);
                if found.len() > 0 {
                    found
                } else {
                    host_directives(elements.drop_first(), alias)
                }
            },
        }
    }
}

/// What the first of `files` that gives directives for `alias` gives.
pub open spec fn files_directives(files: Seq<IncludedFile>, alias: Seq<char>) -> Seq<
    (Seq<char>, Seq<char>),
>
    decreases files, 0nat,
{
    if files.len() == 0 {
        seq![]
    } else {
        let found = host_directives(files[0].elements@, alias);
        if found.len() > 0 {
            found
        } else {
            files_directives(files.drop_first(), alias)
        }
    }
}

/// Key and value of each real directive of a stanza.
fn block_directives(block: &HostBlock) -> (out: Vec<(String, String)>)
    ensures
        pairs(out@) == key_values(block@.directives),
{
    let mut out: Vec<(String, String)> = Vec::new();
    let ghost ds = block@.directives;
    let mut i: usize = 0;
    proof {
        assert(pairs(out@) =~= Seq::<(Seq<char>, Seq<char>)>::empty());
        assert(ds.take(0) =~= Seq::<DirectiveView>::empty());
    }
    while i < block.directives.len()
        invariant
            i <= block.directives.len(),
            ds == block@.directives,
            pairs(out@) == key_values(ds.take(i as int)),
        decreases block.directives.len() - i,
    {
        let d = &block.directives[i];
        proof {
            let t = ds.take(i as int + 1);
            assert(t.drop_last() =~= ds.take(i as int));
            assert(t.last() == d@);
        }
        if !d.is_non_directive {
            let pair = (d.key.clone(), d.value.clone());
            proof {
                assert(pairs(out@.push(pair)) =~= pairs(out@).push((pair.0@, pair.1@)));
            }
            out.push(pair);
        }
        i += 1;
    }
    proof {
        assert(ds.take(i as int) =~= ds);
    }
    out
}

/// Key and value of each real directive of the stanza for `alias`, in the
/// document or in a file included from it; nothing if there is no such stanza.
pub fn find_host_directives(elements: &Vec<ConfigElement>, alias: &str) -> (out: Vec<
    (String, String),
>)
    ensures
        pairs(out@) == host_directives(elements@, alias@),
    decreases elements,
{
    let mut i: usize = 0;
    proof {
        assert(elements@.skip(0) =~= elements@);
    }
    while i < elements.len()
        invariant
            i <= elements.len(),
            host_directives(elements@, alias@) == host_directives(elements@.skip(i as int), alias@),
        decreases elements.len() - i,
    {
        proof {
            reveal_with_fuel(host_directives, 2);
            assert(elements@.skip(i as int)[0] == elements@[i as int]);
            assert(elements@.skip(i as int).drop_first() =~= elements@.skip(i as int + 1));
        }
        match &elements[i] {
            ConfigElement::HostBlock(block) => {
                if str_eq(block.host_pattern.as_str(), alias) {
                    return block_directives(block);
                }
            },
            ConfigElement::GlobalLine(_) => {},
            ConfigElement::Include(inc) => {
                let mut j: usize = 0;
                let ghost files = inc.resolved_files@;
                proof {
                    assert(files.skip(0) =~= files);
                }
                while j < inc.resolved_files.len()
                    invariant
                        j <= inc.resolved_files.len(),
                        i < elements.len(),
                        elements@[i as int] == ConfigElement::Include(*inc),
                        files == inc.resolved_files@,
                        files_directives(files, alias@) == files_directives(
                            files.skip(j as int),
                            alias@,
                        ),
                        host_directives(elements@, alias@) == host_directives(
                            elements@.skip(i as int),
                            alias@,
                        ),
                    decreases inc.resolved_files.len() - j,
                {
                    let file = &inc.resolved_files[j];
                    proof {
                        reveal_with_fuel(files_directives, 2);
                        reveal_with_fuel(host_directives, 2);
                        assert(decreases_to!(elements => elements[i as int]));
                        assert(decreases_to!(elements[i as int] => elements[i as int]->Include_0));
                        assert(decreases_to!(inc.resolved_files => inc.resolved_files[j as int]));
                        assert(files.skip(j as int)[0] == *file);
                        assert(files.skip(j as int).drop_first() =~= files.skip(j as int + 1));
                        assert(elements@.skip(i as int)[0] == elements@[i as int]);
                    }
                    let found = find_host_directives(&file.elements, alias);
                    if found.len() > 0 {
                        return found;
                    }
                    j += 1;
                }
            },
        }
        i += 1;
    }
    let out: Vec<(String, String)> = Vec::new();
    proof {
        assert(pairs(out@) =~= Seq::<(Seq<char>, Seq<char>)>::empty());
    }
    out
}

} // verus!

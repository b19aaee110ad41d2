//! Following `Include` directives.
//!
//! The engine decides what to look for and how deep to go; finding and reading
//! the files is left to a function that the caller supplies.
use crate::paths::{
    optional_string, path_join, path_joined, path_parent, path_parent_of,
};
use crate::split::strings;
use crate::ssh_config::model::{
    element_views, ConfigElement, ElementView, IncludeView, IncludedFile, SshConfigFile,
};
use crate::ssh_config::parser::{parsed, MAX_INCLUDE_DEPTH};
use crate::text::{chars_of, starts_with, str_eq};
use vstd::prelude::*;

verus! {

/// `pattern` with a leading `~/` replaced by the home directory and a slash, if
/// there is a home directory.
pub open spec fn tilde_expanded(pattern: Seq<char>, home: Option<Seq<char>>) -> Seq<char> {
    match home {
        Some(h) => if "~/"@.is_prefix_of(pattern) {
            h + "/"@ + pattern.skip("~/"@.len() as int)
        } else {
            pattern
        },
        None => pattern,
    }
}

/// Whether `pattern` begins at the root of the file system.
pub open spec fn absolute(pattern: Seq<char>) -> bool {
    pattern.len() > 0 && pattern[0] == '/'
}

/// The pattern that is searched for an `Include` directive in a file of the
/// directory `dir`: the expanded pattern itself if it is absolute, else the
/// pattern under `dir`. A relative pattern without a directory is not searched.
pub open spec fn glob_target(
    pattern: Seq<char>,
    dir: Option<Seq<char>>,
    home: Option<Seq<char>>,
) -> Option<Seq<char>> {
    let expanded = tilde_expanded(pattern, home);
    if absolute(expanded) {
        Some(expanded)
    } else {
        match dir {
            Some(d) => Some(path_joined(d, expanded)),
            None => None,
        }
    }
}

/// How many more levels of `Include` are followed below a document at `depth`.
pub open spec fn levels_left(depth: usize) -> nat {
    if depth < MAX_INCLUDE_DEPTH {
        (MAX_INCLUDE_DEPTH - depth) as nat
    } else {
        0
    }
}

/// Whether the files included from `elements` nest at most `levels` deep: with
/// no level left, no `Include` has resolved to any file.
pub open spec fn nested_within(elements: Seq<ConfigElement>, levels: nat) -> bool
    decreases levels,
{
    forall|i: int|
        0 <= i < elements.len() ==> match #[trigger] elements[i] {
            ConfigElement::Include(inc) => if levels == 0 {
                inc.resolved_files@.len() == 0
            } else {
                forall|j: int|
                    0 <= j < inc.resolved_files@.len() ==> nested_within(
                        (#[trigger] inc.resolved_files@[j]).elements@,
                        (levels - 1) as nat,
                    )
            },
            _ => true,
        }
}

/// An element without what its `Include` resolved to.
pub open spec fn outline(e: ElementView) -> ElementView {
    match e {
        ElementView::Include(inc) => ElementView::Include(
            IncludeView { resolved_files: Seq::empty(), ..inc },
        ),
        _ => e,
    }
}

/// The elements without what their `Include` directives resolved to.
pub open spec fn outlines(es: Seq<ElementView>) -> Seq<ElementView> {
    Seq::new(es.len(), |i: int| outline(es[i]))
}

/// Whether `files` are what `find` reported for `target`, in a document read at
/// `depth`: as many files, in the same order, each with the reported path and
/// with the elements of the reported text, its own `Include` directives
/// resolved one level deeper from the directory that holds it.
pub open spec fn found_by<F: Fn(&str) -> Vec<(String, String)>>(
    files: Seq<IncludedFile>,
    find: &F,
    target: Seq<char>,
    home: Option<Seq<char>>,
    depth: usize,
) -> bool
    decreases levels_left(depth), 0nat,
{
    exists|pattern: &str, found: Vec<(String, String)>|
        {
            &&& #[trigger] call_ensures(*find, (pattern,), found)
            &&& pattern@ == target
            &&& files.len() == found@.len()
            &&& forall|k: int|
                0 <= k < files.len() ==> {
                    &&& (#[trigger] files[k]).path@ == found@[k].0@
                    &&& outlines(element_views(files[k].elements@)) == outlines(
                        parsed(found@[k].1@),
                    )
                    &&& if depth < MAX_INCLUDE_DEPTH {
                        all_resolved_by(
                            files[k].elements@,
                            path_parent_of(files[k].path@),
                            home,
                            (depth + 1) as usize,
                            find,
                        )
                    } else {
                        true
                    }
                }
        }
}

/// Whether `files` are what an `Include` directive with `pattern` resolves to
/// in a document read at `depth` from the directory `dir`: nothing if the depth
/// is used up or the pattern is not searched, else what `find` reported.
pub open spec fn resolved_by<F: Fn(&str) -> Vec<(String, String)>>(
    files: Seq<IncludedFile>,
    pattern: Seq<char>,
    dir: Option<Seq<char>>,
    home: Option<Seq<char>>,
    depth: usize,
    find: &F,
) -> bool
    decreases levels_left(depth), 1nat,
{
    if depth >= MAX_INCLUDE_DEPTH {
        files.len() == 0
    } else {
        match glob_target(pattern, dir, home) {
            Some(target) => found_by(files, find, target, home, depth),
            None => files.len() == 0,
        }
    }
}

/// Whether every `Include` directive of `elements` has resolved as
/// [`resolved_by`] says.
pub open spec fn all_resolved_by<F: Fn(&str) -> Vec<(String, String)>>(
    elements: Seq<ConfigElement>,
    dir: Option<Seq<char>>,
    home: Option<Seq<char>>,
    depth: usize,
    find: &F,
) -> bool
    decreases levels_left(depth), 2nat,
{
    forall|i: int|
        0 <= i < elements.len() ==> match #[trigger] elements[i] {
            ConfigElement::Include(inc) => resolved_by(
                inc.resolved_files@,
                inc.pattern@,
                dir,
                home,
                depth,
                find,
            ),
            _ => true,
        }
}

/// The home directory as `dirs::home_dir` reports it, written out as text.
/// Nothing is claimed of it: it depends on the environment.
#[verifier::external_body]
fn home_dir() -> (home: Option<String>) {
    match dirs::home_dir() {
        Some(p) => Some(p.display().to_string()),
        None => None,
    }
}

/// The text of an optional string slice.
pub open spec fn optional_text(s: Option<&str>) -> Option<Seq<char>> {
    match s {
        Some(t) => Some(t@),
        None => None,
    }
}

/// Whether `pattern` begins at the root of the file system.
fn is_absolute(pattern: &str) -> (r: bool)
    ensures
        r == absolute(pattern@),
{
    let p = chars_of(pattern);
    p.len() > 0 && p[0] == '/'
}

/// The pattern that is searched for an `Include` directive.
fn glob_pattern(pattern: &str, dir: Option<&str>, home: Option<&str>) -> (target: Option<String>)
    ensures
        optional_string(target) == glob_target(pattern@, optional_text(dir), optional_text(home)),
{
    let expanded = SshConfigFile::expand_tilde_with(pattern, home);
    if is_absolute(expanded.as_str()) {
        Some(expanded)
    } else {
        match dir {
            Some(d) => Some(path_join(d, expanded.as_str())),
            None => None,
        }
    }
}

impl SshConfigFile {
    /// `pattern` with a leading `~/` replaced by `home` and a slash.
    pub fn expand_tilde_with(pattern: &str, home: Option<&str>) -> (out: String)
        ensures
            out@ == tilde_expanded(pattern@, optional_text(home)),
    {
        match home {
            Some(h) => {
                let p = chars_of(pattern);
                let marker = chars_of("~/");
                if starts_with(p.as_slice(), marker.as_slice()) {
                    let rest = crate::text::string_of(
                        vstd::slice::slice_subrange(p.as_slice(), marker.len(), p.len()),
                    );
                    let mut out = String::from_str(h);
                    out.append("/");
                    out.append(rest.as_str());
                    proof {
                        assert(p@.subrange(marker@.len() as int, p@.len() as int) =~= pattern@.skip(
                            "~/"@.len() as int,
                        ));
                    }
                    out
                } else {
                    String::from_str(pattern)
                }
            },
            None => String::from_str(pattern),
        }
    }

    /// `pattern` with a leading `~/` replaced by the home directory of the user,
    /// if one can be found.
    pub fn expand_tilde(pattern: &str) -> (out: String)
        ensures
            exists|home: Option<Seq<char>>| out@ == tilde_expanded(pattern@, home),
    {
        let home = home_dir();
        let out = match &home {
            Some(h) => Self::expand_tilde_with(pattern, Some(h.as_str())),
            None => Self::expand_tilde_with(pattern, None),
        };
        proof {
            assert(out@ == tilde_expanded(pattern@, optional_string(home)));
        }
        out
    }
}

/// The files that one `Include` directive resolves to, each read and resolved
/// one level deeper.
fn resolve_include<F: Fn(&str) -> Vec<(String, String)>>(
    pattern: &str,
    config_dir: Option<&str>,
    home: Option<&str>,
    depth: usize,
    find: &F,
) -> (files: Vec<IncludedFile>)
    requires
        depth < MAX_INCLUDE_DEPTH,
        forall|p: &str| call_requires(*find, (p,)),
    ensures
        resolved_by(
            files@,
            pattern@,
            optional_text(config_dir),
            optional_text(home),
            depth,
            find,
        ),
        forall|j: int|
            0 <= j < files@.len() ==> nested_within(
                (#[trigger] files@[j]).elements@,
                (levels_left(depth) - 1) as nat,
            ),
    decreases levels_left(depth), 0nat,
{
    let target = match glob_pattern(pattern, config_dir, home) {
        Some(t) => t,
        None => {
            return Vec::new();
        },
    };
    let wanted: &str = target.as_str();
    let found = find(wanted);
    let mut files: Vec<IncludedFile> = Vec::new();
    let mut k: usize = 0;
    while k < found.len()
        invariant
            k <= found.len(),
            depth < MAX_INCLUDE_DEPTH,
            forall|p: &str| call_requires(*find, (p,)),
            files@.len() == k,
            forall|j: int|
                0 <= j < k ==> {
                    &&& (#[trigger] files@[j]).path@ == found@[j].0@
                    &&& outlines(element_views(files@[j].elements@)) == outlines(
                        parsed(found@[j].1@),
                    )
                    &&& nested_within(files@[j].elements@, (levels_left(depth) - 1) as nat)
                    &&& all_resolved_by(
                        files@[j].elements@,
                        path_parent_of(files@[j].path@),
                        optional_text(home),
                        (depth + 1) as usize,
                        find,
                    )
                },
        decreases found.len() - k,
    {
        let path = found[k].0.clone();
        let mut elements = SshConfigFile::parse_content(found[k].1.as_str());
        let dir = path_parent(path.as_str());
        match &dir {
            Some(d) => resolve_includes(&mut elements, Some(d.as_str()), home, depth + 1, find),
            None => resolve_includes(&mut elements, None, home, depth + 1, find),
        }
        files.push(IncludedFile { path, elements });
        k += 1;
    }
    proof {
        assert(call_ensures(*find, (wanted,), found));
        assert(found_by(files@, find, target@, optional_text(home), depth));
    }
    files
}

/// Resolves every `Include` directive of `elements`, which stand in a document
/// read at `depth` from the directory `config_dir`.
///
/// For each directive the pattern is expanded with `home`, made absolute
/// against `config_dir`, and handed to `find`, which reports the files that
/// match as pairs of path and text, in the order they are to appear. Each file
/// is parsed and resolved one level deeper. A relative pattern without a
/// directory resolves to nothing, and so does every pattern once `depth` has
/// reached [`MAX_INCLUDE_DEPTH`]: included files never nest deeper than that.
/// Nothing but the resolved files of the directives changes.
pub fn resolve_includes<F: Fn(&str) -> Vec<(String, String)>>(
    elements: &mut Vec<ConfigElement>,
    config_dir: Option<&str>,
    home: Option<&str>,
    depth: usize,
    find: &F,
)
    requires
        forall|p: &str| call_requires(*find, (p,)),
    ensures
        outlines(element_views(final(elements)@)) == outlines(element_views(old(elements)@)),
        nested_within(final(elements)@, levels_left(depth)),
        all_resolved_by(
            final(elements)@,
            optional_text(config_dir),
            optional_text(home),
            depth,
            find,
        ),
    decreases levels_left(depth), 1nat,
{
    let ghost before = element_views(elements@);
    let mut i: usize = 0;
    while i < elements.len()
        invariant
            i <= elements.len(),
            forall|p: &str| call_requires(*find, (p,)),
            elements@.len() == before.len(),
            outlines(element_views(elements@)) == outlines(before),
            forall|k: int|
                0 <= k < i ==> match #[trigger] elements@[k] {
                    ConfigElement::Include(inc) => {
                        &&& resolved_by(
                            inc.resolved_files@,
                            inc.pattern@,
                            optional_text(config_dir),
                            optional_text(home),
                            depth,
                            find,
                        )
                        &&& if levels_left(depth) == 0 {
                            inc.resolved_files@.len() == 0
                        } else {
                            forall|j: int|
                                0 <= j < inc.resolved_files@.len() ==> nested_within(
                                    (#[trigger] inc.resolved_files@[j]).elements@,
                                    (levels_left(depth) - 1) as nat,
                                )
                        }
                    },
                    _ => true,
                },
        decreases elements.len() - i,
    {
        let is_directive = match &elements[i] {
            ConfigElement::Include(_) => true,
            _ => false,
        };
        if is_directive {
            let ghost cur = elements@;
            let mut slot = ConfigElement::GlobalLine(String::new());
            elements.set_and_swap(i, &mut slot);
            let updated = match slot {
                ConfigElement::Include(mut inc) => {
                    inc.resolved_files = if depth < MAX_INCLUDE_DEPTH {
                        resolve_include(inc.pattern.as_str(), config_dir, home, depth, find)
                    } else {
                        Vec::new()
                    };
                    ConfigElement::Include(inc)
                },
                other => other,
            };
            proof {
                assert(outline(updated@) == outline(cur[i as int]@));
            }
            elements.set(i, updated);
            proof {
                assert forall|k: int| 0 <= k < elements@.len() implies outline(
                    #[trigger] element_views(elements@)[k],
                ) == outline(element_views(cur)[k]) by {
                    if k != i {
                        assert(elements@[k] == cur[k]);
                    }
                }
                assert(outlines(element_views(elements@)) =~= outlines(element_views(cur)));
                assert forall|k: int| 0 <= k < i implies elements@[k] == cur[k] by {}
            }
        }
        i += 1;
    }
}

impl SshConfigFile {
    /// Resolves the `Include` directives of the document, starting from the
    /// directory that holds it and with the home directory of the user. Nothing
    /// but the resolved files of the directives changes, and included files
    /// nest at most [`MAX_INCLUDE_DEPTH`] deep.
    pub fn resolve_includes<F: Fn(&str) -> Vec<(String, String)>>(&mut self, find: &F)
        requires
            forall|p: &str| call_requires(*find, (p,)),
        ensures
            final(self).path == old(self).path,
            final(self).crlf == old(self).crlf,
            outlines(element_views(final(self).elements@)) == outlines(
                element_views(old(self).elements@),
            ),
            nested_within(final(self).elements@, MAX_INCLUDE_DEPTH as nat),
            exists|home: Option<Seq<char>>| #[trigger]
                all_resolved_by(
                    final(self).elements@,
                    path_parent_of(old(self).path@),
                    home,
                    0,
                    find,
                ),
    {
        let dir = path_parent(self.path.as_str());
        let home = home_dir();
        let h: Option<&str> = match &home {
            Some(s) => Some(s.as_str()),
            None => None,
        };
        match &dir {
            Some(d) => resolve_includes(&mut self.elements, Some(d.as_str()), h, 0, find),
            None => resolve_includes(&mut self.elements, None, h, 0, find),
        }
        proof {
            assert(all_resolved_by(
                self.elements@,
                path_parent_of(old(self).path@),
                optional_text(h),
                0,
                find,
            ));
        }
    }
}

/// Whether no text occurs twice in `v`.
pub open spec fn distinct(v: Seq<Seq<char>>) -> bool {
    forall|i: int, j: int| 0 <= i < j < v.len() ==> v[i] != v[j]
}

/// `v` with `s` at its end, unless `v` holds `s` already.
pub open spec fn with_unique(v: Seq<Seq<char>>, s: Seq<char>) -> Seq<Seq<char>> {
    if v.contains(s) {
        v
    } else {
        v.push(s)
    }
}

/// `acc` and then the directories in which the `Include` patterns of
/// `elements` look, for a document in the directory `dir`, and those of the
/// files included from them, each directory once.
pub open spec fn glob_dirs(
    elements: Seq<ConfigElement>,
    dir: Option<Seq<char>>,
    home: Option<Seq<char>>,
    acc: Seq<Seq<char>>,
) -> Seq<Seq<char>>
    decreases elements, 0nat,
{
    if elements.len() == 0 {
        acc
    } else {
        element_glob_dirs(
            elements.last(),
            dir,
            home,
            glob_dirs(elements.drop_last(), dir, home, acc),
        )
    }
}

/// `acc` and then the directories that one element contributes. A directive
/// whose pattern is not searched contributes nothing, and neither do the files
/// included through it.
pub open spec fn element_glob_dirs(
    e: ConfigElement,
    dir: Option<Seq<char>>,
    home: Option<Seq<char>>,
    acc: Seq<Seq<char>>,
) -> Seq<Seq<char>>
    decreases e, 0nat,
{
    match e {
        ConfigElement::Include(inc) => match glob_target(inc.pattern@, dir, home) {
            Some(target) => files_glob_dirs(
                inc.resolved_files@,
                home,
                match path_parent_of(target) {
                    Some(parent) => with_unique(acc, parent),
                    None => acc,
                },
            ),
            None => acc,
        },
        _ => acc,
    }
}

/// `acc` and then the directories that the `Include` patterns of `files` look
/// in, each file read from the directory that holds it.
pub open spec fn files_glob_dirs(
    files: Seq<IncludedFile>,
    home: Option<Seq<char>>,
    acc: Seq<Seq<char>>,
) -> Seq<Seq<char>>
    decreases files, 0nat,
{
    if files.len() == 0 {
        acc
    } else {
        glob_dirs(
            files.last().elements@,
            path_parent_of(files.last().path@),
            home,
            files_glob_dirs(files.drop_last(), home, acc),
        )
    }
}

/// Appends `dir` to `dirs` unless it is there already.
pub fn push_unique(dirs: &mut Vec<String>, dir: String)
    ensures
        strings(final(dirs)@) == with_unique(strings(old(dirs)@), dir@),
{
    let mut i: usize = 0;
    while i < dirs.len()
        invariant
            i <= dirs.len(),
            dirs@ == old(dirs)@,
            forall|k: int| 0 <= k < i ==> strings(dirs@)[k] != dir@,
        decreases dirs.len() - i,
    {
        if str_eq(dirs[i].as_str(), dir.as_str()) {
            proof {
                assert(strings(dirs@)[i as int] == dir@);
            }
            return ;
        }
        i += 1;
    }
    proof {
        assert(strings(dirs@.push(dir)) =~= strings(dirs@).push(dir@));
    }
    dirs.push(dir);
}

/// Appends to `dirs` the directory of each `Include` pattern of `elements` and
/// of the files included from them.
fn collect_include_glob_dirs(
    elements: &Vec<ConfigElement>,
    config_dir: Option<&str>,
    home: Option<&str>,
    dirs: &mut Vec<String>,
)
    ensures
        strings(final(dirs)@) == glob_dirs(
            elements@,
            optional_text(config_dir),
            optional_text(home),
            strings(old(dirs)@),
        ),
    decreases elements,
{
    let ghost start = strings(dirs@);
    let ghost dir = optional_text(config_dir);
    let ghost h = optional_text(home);
    let mut i: usize = 0;
    proof {
        assert(elements@.take(0) =~= Seq::<ConfigElement>::empty());
    }
    while i < elements.len()
        invariant
            i <= elements.len(),
            dir == optional_text(config_dir),
            h == optional_text(home),
            strings(dirs@) == glob_dirs(elements@.take(i as int), dir, h, start),
        decreases elements.len() - i,
    {
        proof {
            reveal_with_fuel(glob_dirs, 2);
            let t = elements@.take(i as int + 1);
            assert(t.drop_last() =~= elements@.take(i as int));
            assert(t.last() == elements@[i as int]);
        }
        match &elements[i] {
            ConfigElement::Include(inc) => {
                if let Some(target) = glob_pattern(inc.pattern.as_str(), config_dir, home) {
                    if let Some(parent) = path_parent(target.as_str()) {
                        push_unique(dirs, parent);
                    }
                    let ghost base = strings(dirs@);
                    let ghost files = inc.resolved_files@;
                    let mut j: usize = 0;
                    proof {
                        assert(files.take(0) =~= Seq::<IncludedFile>::empty());
                    }
                    while j < inc.resolved_files.len()
                        invariant
                            j <= inc.resolved_files.len(),
                            i < elements.len(),
                            elements@[i as int] == ConfigElement::Include(*inc),
                            files == inc.resolved_files@,
                            h == optional_text(home),
                            strings(dirs@) == files_glob_dirs(files.take(j as int), h, base),
                        decreases inc.resolved_files.len() - j,
                    {
                        let file = &inc.resolved_files[j];
                        proof {
                            reveal_with_fuel(files_glob_dirs, 2);
                            let e = elements[i as int];
                            assert(decreases_to!(elements => e));
                            assert(decreases_to!(e => e->Include_0));
                            assert(decreases_to!(inc.resolved_files => *file));
                            let t = files.take(j as int + 1);
                            assert(t.drop_last() =~= files.take(j as int));
                            assert(t.last() == *file);
                        }
                        let file_dir = path_parent(file.path.as_str());
                        match &file_dir {
                            Some(d) => collect_include_glob_dirs(
                                &file.elements,
                                Some(d.as_str()),
                                home,
                                dirs,
                            ),
                            None => collect_include_glob_dirs(&file.elements, None, home, dirs),
                        }
                        j += 1;
                    }
                    proof {
                        assert(files.take(j as int) =~= files);
                    }
                }
            },
            _ => {},
        }
        i += 1;
    }
    proof {
        assert(elements@.take(i as int) =~= elements@);
    }
}

impl SshConfigFile {
    /// The directories in which the patterns of the `Include` directives look,
    /// with `home` for the home directory.
    pub fn include_glob_dirs_with(&self, home: Option<&str>) -> (dirs: Vec<String>)
        ensures
            strings(dirs@) == glob_dirs(
                self.elements@,
                path_parent_of(self.path@),
                optional_text(home),
                Seq::empty(),
            ),
    {
        let mut dirs: Vec<String> = Vec::new();
        let config_dir = path_parent(self.path.as_str());
        proof {
            assert(strings(dirs@) =~= Seq::<Seq<char>>::empty());
        }
        match &config_dir {
            Some(d) => collect_include_glob_dirs(
                &self.elements,
                Some(d.as_str()),
                home,
                &mut dirs,
            ),
            None => collect_include_glob_dirs(&self.elements, None, home, &mut dirs),
        }
        dirs
    }

    /// The directories in which the patterns of the `Include` directives look,
    /// for the document and for every file included from it, each once.
    pub fn include_glob_dirs(&self) -> (dirs: Vec<String>)
        ensures
            exists|home: Option<Seq<char>>|
                strings(dirs@) == glob_dirs(
                    self.elements@,
                    path_parent_of(self.path@),
                    home,
                    Seq::empty(),
                ),
    {
        let home = home_dir();
        let dirs = match &home {
            Some(h) => self.include_glob_dirs_with(Some(h.as_str())),
            None => self.include_glob_dirs_with(None),
        };
        proof {
            assert(strings(dirs@) == glob_dirs(
                self.elements@,
                path_parent_of(self.path@),
                optional_string(home),
                Seq::empty(),
            ));
        }
        dirs
    }
}

} // verus!

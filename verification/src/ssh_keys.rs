//! Listings of SSH keys: what `ssh-keygen -l` prints, and which hosts use a key.
use crate::paths::{paths_equal, same_path};
use crate::split::strings;
use crate::ssh_config::model::{entry_views, HostEntry, HostEntryView};
use crate::text::{
    chars_of, find, index_of, last_index_of, lemma_last_index_of, rfind, str_eq, string_of, trim,
    trimmed, CharSet,
};
use vstd::prelude::*;
use vstd::slice::slice_subrange;

verus! {

/// What is known of a key on disk.
#[derive(Debug, Clone)]
pub struct SshKeyInfo {
    /// File name of the private key.
    pub name: String,
    /// Path of the private key, with `~` for the home directory.
    pub display_path: String,
    pub key_type: String,
    pub bits: String,
    pub fingerprint: String,
    pub comment: String,
    /// Aliases of the hosts that use the key.
    pub linked_hosts: Vec<String>,
}

/// Number of closing parentheses at the end of `s`.
pub open spec fn trailing_parens(s: Seq<char>) -> nat
    decreases s.len(),
{
    if s.len() > 0 && s.last() == ')' {
        1 + trailing_parens(s.drop_last())
    } else {
        0
    }
}

/// Type and bits of a key in one text: the type alone without bits.
pub open spec fn type_text(key_type: Seq<char>, bits: Seq<char>) -> Seq<char> {
    if bits.len() == 0 {
        key_type
    } else {
        key_type + " "@ + bits
    }
}

/// Bits, fingerprint, comment and type from a line of the form
/// `<bits> <fingerprint> <comment> (<type>)`. The type is what follows the
/// last opening parenthesis, without the closing ones at the end; without a
/// parenthesis the rest of the line is the comment.
pub open spec fn keygen_fields(line: Seq<char>) -> Option<
    (Seq<char>, Seq<char>, Seq<char>, Seq<char>),
> {
    let space = CharSet::Exactly(' ');
    let a = index_of(line, space);
    let tail = line.skip(a + 1);
    let b = index_of(tail, space);
    let rest = tail.skip(b + 1);
    let open = last_index_of(rest, CharSet::Exactly('('));
    if 0 <= a < line.len() && 0 <= b < tail.len() {
        let (comment, key_type) = if 0 <= open < rest.len() {
            let after = rest.skip(open + 1);
            (trimmed(rest.take(open)), after.take(after.len() - trailing_parens(after)))
        } else {
            (rest, Seq::<char>::empty())
        };
        Some((line.take(a), tail.take(b), comment, key_type))
    } else {
        None
    }
}

/// Whether a host uses the key at `full_path`, shown as `display_path`: its
/// identity file is not empty and is the shown path, or the same path as the
/// full one.
pub open spec fn uses_key(h: HostEntryView, full_path: Seq<char>, display_path: Seq<char>) -> bool {
    h.identity_file.len() > 0 && (h.identity_file == display_path || paths_equal(
        h.identity_file,
        full_path,
    ))
}

/// The aliases of the hosts that use the key, in the order of the hosts.
pub open spec fn linked_hosts(
    hosts: Seq<HostEntryView>,
    full_path: Seq<char>,
    display_path: Seq<char>,
) -> Seq<Seq<char>>
    decreases hosts.len(),
{
    if hosts.len() == 0 {
        seq![]
    } else {
        let before = linked_hosts(hosts.drop_last(), full_path, display_path);
        if uses_key(hosts.last(), full_path, display_path) {
            before.push(hosts.last().alias)
        } else {
            before
        }
    }
}

/// `trailing_parens` is determined by the last character that is no closing
/// parenthesis.
proof fn lemma_trailing_parens_is(s: Seq<char>, n: int)
    requires
        0 <= n <= s.len(),
        forall|i: int| s.len() - n <= i < s.len() ==> #[trigger] s[i] == ')',
        n < s.len() ==> s[s.len() - n - 1] != ')',
    ensures
        trailing_parens(s) == n,
    decreases s.len(),
{
    if n > 0 {
        let t = s.drop_last();
        assert(s[s.len() - 1] == ')');
        assert forall|i: int| t.len() - (n - 1) <= i < t.len() implies #[trigger] t[i] == ')' by {
            assert(t[i] == s[i]);
        }
        lemma_trailing_parens_is(t, n - 1);
    }
}

impl SshKeyInfo {
    /// Type and bits in one text, such as `RSA 4096`.
    pub fn type_display(&self) -> (out: String)
        ensures
            out@ == type_text(self.key_type@, self.bits@),
    {
        if self.bits.as_str().is_empty() {
            self.key_type.clone()
        } else {
            let mut out = self.key_type.clone();
            out.append(" ");
            out.append(self.bits.as_str());
            out
        }
    }
}

/// Bits, fingerprint, comment and type from a line that `ssh-keygen -l` prints.
pub fn parse_keygen_output(line: &str) -> (r: Option<(String, String, String, String)>)
    ensures
        match r {
            Some((bits, fingerprint, comment, key_type)) => keygen_fields(line@) == Some(
                (bits@, fingerprint@, comment@, key_type@),
            ),
            None => keygen_fields(line@) is None,
        },
{
    let cs = chars_of(line);
    let s = cs.as_slice();
    let a = find(s, CharSet::Exactly(' '));
    if a >= s.len() {
        return None;
    }
    let tail = slice_subrange(s, a + 1, s.len());
    let b = find(tail, CharSet::Exactly(' '));
    if b >= tail.len() {
        return None;
    }
    let rest = slice_subrange(tail, b + 1, tail.len());
    let bits = string_of(slice_subrange(s, 0, a));
    let fingerprint = string_of(slice_subrange(tail, 0, b));
    match rfind(rest, CharSet::Exactly('(')) {
        Some(open) => {
            proof {
                lemma_last_index_of(rest@, CharSet::Exactly('('));
            }
            let comment = string_of(trim(slice_subrange(rest, 0, open)));
            let after = slice_subrange(rest, open + 1, rest.len());
            let mut n: usize = after.len();
            while n > 0 && after[n - 1] == ')'
                invariant
                    n <= after.len(),
                    forall|k: int| n <= k < after.len() ==> #[trigger] after@[k] == ')',
                decreases n,
            {
                n -= 1;
            }
            proof {
                lemma_trailing_parens_is(after@, after.len() - n);
            }
            let key_type = string_of(slice_subrange(after, 0, n));
            Some((bits, fingerprint, comment, key_type))
        },
        None => Some((bits, fingerprint, string_of(rest), String::new())),
    }
}

/// The aliases of the hosts whose identity file is the key at `full_path`,
/// shown as `display_path`.
pub fn find_linked_hosts(full_path: &str, display_path: &str, hosts: &[HostEntry]) -> (out: Vec<
    String,
>)
    ensures
        strings(out@) == linked_hosts(entry_views(hosts@), full_path@, display_path@),
{
    let ghost all = entry_views(hosts@);
    let mut out: Vec<String> = Vec::new();
    let mut i: usize = 0;
    proof {
        assert(all.take(0) =~= Seq::<HostEntryView>::empty());
        assert(strings(out@) =~= Seq::<Seq<char>>::empty());
    }
    while i < hosts.len()
        invariant
            i <= hosts.len(),
            all == entry_views(hosts@),
            strings(out@) == linked_hosts(all.take(i as int), full_path@, display_path@),
        decreases hosts.len() - i,
    {
        let h = &hosts[i];
        proof {
            let t = all.take(i as int + 1);
            assert(t.drop_last() =~= all.take(i as int));
            assert(t.last() == h@);
        }
        if !h.identity_file.as_str().is_empty() && (str_eq(h.identity_file.as_str(), display_path)
            || same_path(h.identity_file.as_str(), full_path)) {
            let alias = h.alias.clone();
            proof {
                assert(strings(out@.push(alias)) =~= strings(out@).push(alias@));
            }
            out.push(alias);
        }
        i += 1;
    }
    proof {
        assert(all.take(i as int) =~= all);
    }
    out
}

/// Whether a file of this name is taken for a public key: the name ends in
/// `.pub`, and is neither `authorized_keys.pub` nor `known_hosts.pub`.
pub open spec fn public_key_name(name: Seq<char>) -> bool {
    ".pub"@.is_suffix_of(name) && name != "authorized_keys.pub"@ && name != "known_hosts.pub"@
}

/// The name of the private key that belongs to a public key: the name without
/// `.pub` at its end.
pub open spec fn private_name(pub_name: Seq<char>) -> Seq<char> {
    if ".pub"@.is_suffix_of(pub_name) {
        pub_name.take(pub_name.len() - ".pub"@.len())
    } else {
        pub_name
    }
}

/// Whether `s` ends in `suffix`.
fn ends_with(s: &[char], suffix: &[char]) -> (r: bool)
    ensures
        r == suffix@.is_suffix_of(s@),
{
    if suffix.len() > s.len() {
        return false;
    }
    let r = crate::text::same(slice_subrange(s, s.len() - suffix.len(), s.len()), suffix);
    proof {
        if r {
            assert(suffix@ =~= s@.subrange(s@.len() - suffix@.len(), s@.len() as int));
        }
    }
    r
}

/// Whether a file of this name is taken for a public key.
pub fn is_public_key_name(name: &str) -> (r: bool)
    ensures
        r == public_key_name(name@),
{
    let cs = chars_of(name);
    let suffix = chars_of(".pub");
    ends_with(cs.as_slice(), suffix.as_slice()) && !str_eq(name, "authorized_keys.pub") && !str_eq(
        name,
        "known_hosts.pub",
    )
}

/// The name of the private key that belongs to the public key `pub_name`.
pub fn private_key_name(pub_name: &str) -> (name: String)
    ensures
        name@ == private_name(pub_name@),
{
    let cs = chars_of(pub_name);
    let suffix = chars_of(".pub");
    if ends_with(cs.as_slice(), suffix.as_slice()) {
        string_of(slice_subrange(cs.as_slice(), 0, cs.len() - suffix.len()))
    } else {
        string_of(cs.as_slice())
    }
}

} // verus!

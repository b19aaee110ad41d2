//! Targets of the form `[user@]hostname[:port]`.
use crate::number::{is_digit, parse_u16, parsed_u16};
use crate::text::{
    chars_of, contains, find, index_of, last_index_of, lemma_index_of, lemma_last_index_of,
    rfind, string_of, CharSet,
};
use vstd::prelude::*;
use vstd::slice::slice_subrange;

verus! {

/// A target taken apart.
#[derive(Debug, Clone, PartialEq)]
pub struct ParsedTarget {
    pub user: String,
    pub hostname: String,
    pub port: u16,
}

/// What a [`ParsedTarget`] holds.
pub ghost struct TargetView {
    pub user: Seq<char>,
    pub hostname: Seq<char>,
    pub port: u16,
}

impl View for ParsedTarget {
    type V = TargetView;

    open spec fn view(&self) -> TargetView {
        TargetView { user: self.user@, hostname: self.hostname@, port: self.port }
    }
}

/// Why a text is no target.
pub ghost enum TargetFault {
    Empty,
    EmptyUser,
    PortZero,
    InvalidPort,
    TextAfterBracket,
    MissingBracket,
    EmptyHostname,
}

/// The message for each fault.
pub open spec fn fault_text(f: TargetFault) -> Seq<char> {
    match f {
        TargetFault::Empty => "Target can't be empty."@,
        TargetFault::EmptyUser => "User part before @ can't be empty."@,
        TargetFault::PortZero => "Port 0? Bold choice, but no. Try 1-65535."@,
        TargetFault::InvalidPort => "Invalid port after bracketed host."@,
        TargetFault::TextAfterBracket => "Unexpected text after closing bracket."@,
        TargetFault::MissingBracket => "Missing closing bracket for IPv6 address."@,
        TargetFault::EmptyHostname => "Hostname can't be empty."@,
    }
}

/// Host and port of the part of a target that follows the user.
///
/// A host in square brackets may be followed by a colon and a port, and by
/// nothing else. Without brackets, what follows the last colon is the port if
/// it is a number and no colon stands before it; otherwise the whole part is
/// the host. The port is 22 where none is given, and never 0.
pub open spec fn host_and_port(rest: Seq<char>) -> Result<(Seq<char>, u16), TargetFault> {
    if rest.len() > 0 && rest[0] == '[' {
        let close = index_of(rest, CharSet::Exactly(']'));
        if 0 <= close < rest.len() {
            let host = rest.subrange(1, close);
            let after = rest.skip(close + 1);
            if after.len() > 0 && after[0] == ':' {
                match parsed_u16(after.skip(1)) {
                    Some(port) => if port == 0 {
                        Err(TargetFault::PortZero)
                    } else {
                        Ok((host, port))
                    },
                    None => Err(TargetFault::InvalidPort),
                }
            } else if after.len() == 0 {
                Ok((host, 22u16))
            } else {
                Err(TargetFault::TextAfterBracket)
            }
        } else {
            Err(TargetFault::MissingBracket)
        }
    } else {
        let colon = last_index_of(rest, CharSet::Exactly(':'));
        if 0 <= colon < rest.len() && !rest.take(colon).contains(':') {
            match parsed_u16(rest.skip(colon + 1)) {
                Some(port) => if port == 0 {
                    Err(TargetFault::PortZero)
                } else {
                    Ok((rest.take(colon), port))
                },
                None => Ok((rest, 22u16)),
            }
        } else {
            Ok((rest, 22u16))
        }
    }
}

/// What a target text denotes. The user is what stands before the first `@`,
/// and must not be empty if there is an `@`; the host must not be empty.
pub open spec fn target_of(target: Seq<char>) -> Result<TargetView, TargetFault> {
    let at = index_of(target, CharSet::Exactly('@'));
    if target.len() == 0 {
        Err(TargetFault::Empty)
    } else if at == 0 {
        Err(TargetFault::EmptyUser)
    } else {
        let (user, rest) = if 0 <= at < target.len() {
            (target.take(at), target.skip(at + 1))
        } else {
            (Seq::<char>::empty(), target)
        };
        match host_and_port(rest) {
            Ok((hostname, port)) => if hostname.len() == 0 {
                Err(TargetFault::EmptyHostname)
            } else {
                Ok(TargetView { user, hostname, port })
            },
            Err(f) => Err(f),
        }
    }
}

/// Whether a text has the look of a target: it holds an `@`, or begins with a
/// square bracket, or ends in a colon and digits with no colon before them.
pub open spec fn target_like(s: Seq<char>) -> bool {
    let colon = last_index_of(s, CharSet::Exactly(':'));
    ||| s.contains('@')
    ||| (s.len() > 0 && s[0] == '[')
    ||| (0 <= colon < s.len() && !s.take(colon).contains(':') && s.skip(colon + 1).len() > 0
        && crate::number::all_digits(s.skip(colon + 1)))
}

/// `contains` of a sequence says what `contains` of a slice computes.
proof fn lemma_contains(s: Seq<char>, c: char)
    ensures
        s.contains(c) == exists|i: int|
            0 <= i < s.len() && CharSet::Exactly(c).has(#[trigger] s[i]),
{
    if s.contains(c) {
        let i = choose|i: int| 0 <= i < s.len() && s[i] == c;
        assert(CharSet::Exactly(c).has(s[i]));
    }
}

/// Host and port of the part of a target that follows the user.
fn parse_host_and_port(rest: &[char]) -> (r: Result<(String, u16), String>)
    ensures
        match r {
            Ok((host, port)) => host_and_port(rest@) == Ok::<_, TargetFault>((host@, port)),
            Err(msg) => host_and_port(rest@) is Err && msg@ == fault_text(
                host_and_port(rest@)->Err_0,
            ),
        },
{
    if rest.len() > 0 && rest[0] == '[' {
        let close = find(rest, CharSet::Exactly(']'));
        if close < rest.len() {
            proof {
                lemma_index_of(rest@, CharSet::Exactly(']'));
            }
            let host = slice_subrange(rest, 1, close);
            let after = slice_subrange(rest, close + 1, rest.len());
            if after.len() > 0 && after[0] == ':' {
                match parse_u16(slice_subrange(after, 1, after.len())) {
                    Some(port) => {
                        if port == 0 {
                            Err(String::from_str("Port 0? Bold choice, but no. Try 1-65535."))
                        } else {
                            Ok((string_of(host), port))
                        }
                    },
                    None => Err(String::from_str("Invalid port after bracketed host.")),
                }
            } else if after.len() == 0 {
                Ok((string_of(host), 22))
            } else {
                Err(String::from_str("Unexpected text after closing bracket."))
            }
        } else {
            Err(String::from_str("Missing closing bracket for IPv6 address."))
        }
    } else {
        match rfind(rest, CharSet::Exactly(':')) {
            Some(colon) => {
                proof {
                    lemma_last_index_of(rest@, CharSet::Exactly(':'));
                }
                let host_part = slice_subrange(rest, 0, colon);
                proof {
                    lemma_contains(host_part@, ':');
                }
                if !contains(host_part, CharSet::Exactly(':')) {
                    match parse_u16(slice_subrange(rest, colon + 1, rest.len())) {
                        Some(port) => {
                            if port == 0 {
                                Err(String::from_str("Port 0? Bold choice, but no. Try 1-65535."))
                            } else {
                                Ok((string_of(host_part), port))
                            }
                        },
                        None => Ok((string_of(rest), 22)),
                    }
                } else {
                    Ok((string_of(rest), 22))
                }
            },
            None => Ok((string_of(rest), 22)),
        }
    }
}

/// Takes a target of the form `[user@]hostname[:port]` apart, or says in a
/// message why the text is none.
pub fn parse_target(target: &str) -> (r: Result<ParsedTarget, String>)
    ensures
        match r {
            Ok(t) => target_of(target@) == Ok::<_, TargetFault>(t@),
            Err(msg) => target_of(target@) is Err && msg@ == fault_text(target_of(target@)->Err_0),
        },
{
    let t = chars_of(target);
    let s = t.as_slice();
    if s.len() == 0 {
        return Err(String::from_str("Target can't be empty."));
    }
    let at = find(s, CharSet::Exactly('@'));
    proof {
        lemma_index_of(s@, CharSet::Exactly('@'));
    }
    let (user, rest) = if at < s.len() {
        if at == 0 {
            return Err(String::from_str("User part before @ can't be empty."));
        }
        (string_of(slice_subrange(s, 0, at)), slice_subrange(s, at + 1, s.len()))
    } else {
        (String::new(), s)
    };
    match parse_host_and_port(rest) {
        Ok((hostname, port)) => {
            if hostname.as_str().is_empty() {
                return Err(String::from_str("Hostname can't be empty."));
            }
            Ok(ParsedTarget { user, hostname, port })
        },
        Err(msg) => Err(msg),
    }
}

/// Whether a text has the look of a target.
pub fn looks_like_target(s: &str) -> (r: bool)
    ensures
        r == target_like(s@),
{
    let t = chars_of(s);
    let cs = t.as_slice();
    proof {
        lemma_contains(cs@, '@');
    }
    if contains(cs, CharSet::Exactly('@')) {
        return true;
    }
    if cs.len() > 0 && cs[0] == '[' {
        return true;
    }
    match rfind(cs, CharSet::Exactly(':')) {
        Some(colon) => {
            proof {
                lemma_last_index_of(cs@, CharSet::Exactly(':'));
            }
            let before = slice_subrange(cs, 0, colon);
            let after = slice_subrange(cs, colon + 1, cs.len());
            proof {
                lemma_contains(before@, ':');
            }
            if contains(before, CharSet::Exactly(':')) || after.len() == 0 {
                return false;
            }
            let mut i: usize = 0;
            assert(after@ =~= s@.skip(colon as int + 1));
            assert(before@ =~= s@.take(colon as int));
            assert(target_like(s@) == crate::number::all_digits(after@));
            while i < after.len()
                invariant
                    i <= after.len(),
                    target_like(s@) == crate::number::all_digits(after@),
                    forall|k: int| 0 <= k < i ==> is_digit(#[trigger] after@[k]),
                decreases after.len() - i,
            {
                let c = after[i];
                if !('0' <= c && c <= '9') {
                    assert(!is_digit(after@[i as int]));
                    return false;
                }
                i += 1;
            }
            true
        },
        None => false,
    }
}

} // verus!

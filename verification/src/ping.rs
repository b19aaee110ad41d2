//! The address that is tried to see whether a host answers.
use crate::number::{decimal, decimal_chars};
use crate::text::{
    chars_of, contains, leading, lemma_leading_is, lemma_trailing_is, string_of, trailing, CharSet,
};
use vstd::prelude::*;
use vstd::slice::slice_subrange;

verus! {

/// `hostname` without opening brackets at its start and closing brackets at its
/// end.
pub open spec fn unbracketed(hostname: Seq<char>) -> Seq<char> {
    let rest = hostname.skip(leading(hostname, '[') as int);
    rest.take(rest.len() - trailing(rest, ']'))
}

/// The socket address of a host: `host:port`, with the host in brackets if it
/// is an IPv6 address, which shows by a colon in it.
pub open spec fn socket_address(hostname: Seq<char>, port: u16) -> Seq<char> {
    if unbracketed(hostname).contains(':') {
        "["@ + unbracketed(hostname) + "]:"@ + decimal(port as nat)
    } else {
        hostname + ":"@ + decimal(port as nat)
    }
}

/// The socket address at which a host is tried.
pub fn ping_address(hostname: &str, port: u16) -> (address: String)
    ensures
        address@ == socket_address(hostname@, port),
{
    let cs = chars_of(hostname);
    let s = cs.as_slice();
    let mut start: usize = 0;
    while start < s.len() && s[start] == '['
        invariant
            start <= s.len(),
            forall|k: int| 0 <= k < start ==> #[trigger] s@[k] == '[',
        decreases s.len() - start,
    {
        start += 1;
    }
    proof {
        lemma_leading_is(s@, '[', start as int);
    }
    let rest = slice_subrange(s, start, s.len());
    let mut end: usize = rest.len();
    while end > 0 && rest[end - 1] == ']'
        invariant
            end <= rest.len(),
            forall|k: int| end <= k < rest.len() ==> #[trigger] rest@[k] == ']',
        decreases end,
    {
        end -= 1;
    }
    proof {
        assert(rest@ =~= s@.skip(start as int));
        lemma_trailing_is(rest@, ']', rest.len() - end);
    }
    let clean = slice_subrange(rest, 0, end);
    proof {
        if clean@.contains(':') {
            let i = choose|i: int| 0 <= i < clean@.len() && clean@[i] == ':';
            assert(CharSet::Exactly(':').has(clean@[i]));
        }
    }
    let number = string_of(decimal_chars(port as u64).as_slice());
    if contains(clean, CharSet::Exactly(':')) {
        let mut address = String::from_str("[");
        let host = string_of(clean);
        address.append(host.as_str());
        address.append("]:");
        address.append(number.as_str());
        address
    } else {
        let mut address = String::from_str(hostname);
        address.append(":");
        address.append(number.as_str());
        address
    }
}

} // verus!

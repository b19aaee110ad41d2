//! Character-level text operations with exact specifications.
//!
//! Every specification speaks of a text as a `Seq<char>`, the view of `str` and
//! `String`. The executable functions work on `&[char]` so that positions are
//! character positions and no operation can split a multi-byte character.
use vstd::prelude::*;
use vstd::slice::slice_subrange;

verus! {

/// A class of characters to search for.
#[derive(Clone, Copy, Debug)]
pub enum CharSet {
    /// Exactly this character.
    Exactly(char),
    /// Any Unicode white space.
    Whitespace,
    /// A space or a horizontal tab.
    Blank,
}

/// Unicode `White_Space`.
pub open spec fn whitespace(c: char) -> bool {
    let n = c as u32;
    ||| (0x09 <= n && n <= 0x0d)
    ||| n == 0x20
    ||| n == 0x85
    ||| n == 0xa0
    ||| n == 0x1680
    ||| (0x2000 <= n && n <= 0x200a)
    ||| n == 0x2028
    ||| n == 0x2029
    ||| n == 0x202f
    ||| n == 0x205f
    ||| n == 0x3000
}

/// ASCII white space in the narrow sense: space, tab, line feed, form feed,
/// carriage return.
pub open spec fn ascii_whitespace(c: char) -> bool {
    c == ' ' || c == '\t' || c == '\n' || c == '\u{c}' || c == '\r'
}

/// ASCII lower-casing of one character.
pub open spec fn lower(c: char) -> char {
    if 'A' <= c && c <= 'Z' {
        ((c as u8 + 32) as u8) as char
    } else {
        c
    }
}

/// Equality of two texts up to ASCII case.
pub open spec fn same_ignoring_case(a: Seq<char>, b: Seq<char>) -> bool {
    &&& a.len() == b.len()
    &&& forall|i: int| 0 <= i < a.len() ==> lower(#[trigger] a[i]) == lower(b[i])
}

impl CharSet {
    /// Whether `c` belongs to the class.
    pub open spec fn has(self, c: char) -> bool {
        match self {
            CharSet::Exactly(x) => c == x,
            CharSet::Whitespace => whitespace(c),
            CharSet::Blank => c == ' ' || c == '\t',
        }
    }

    /// Whether `c` belongs to the class.
    pub fn contains(&self, c: char) -> (r: bool)
        ensures
            r == self.has(c),
    {
        match self {
            CharSet::Exactly(x) => c == *x,
            CharSet::Whitespace => is_whitespace(c),
            CharSet::Blank => c == ' ' || c == '\t',
        }
    }
}

/// Number of leading characters of `s` that are white space.
pub open spec fn leading_whitespace(s: Seq<char>) -> nat
    decreases s.len(),
{
    if s.len() > 0 && whitespace(s[0]) {
        1 + leading_whitespace(s.drop_first())
    } else {
        0
    }
}

/// Number of trailing characters of `s` that are white space.
pub open spec fn trailing_whitespace(s: Seq<char>) -> nat
    decreases s.len(),
{
    if s.len() > 0 && whitespace(s.last()) {
        1 + trailing_whitespace(s.drop_last())
    } else {
        0
    }
}

/// `s` without its leading white space.
pub open spec fn trimmed_start(s: Seq<char>) -> Seq<char> {
    s.skip(leading_whitespace(s) as int)
}

/// `s` without its trailing white space.
pub open spec fn trimmed_end(s: Seq<char>) -> Seq<char> {
    s.take(s.len() - trailing_whitespace(s))
}

/// `s` without leading and trailing white space.
pub open spec fn trimmed(s: Seq<char>) -> Seq<char> {
    trimmed_end(trimmed_start(s))
}

/// Position of the first character of `s` in `set`, or `s.len()` if there is none.
pub open spec fn index_of(s: Seq<char>, set: CharSet) -> int
    decreases s.len(),
{
    if s.len() == 0 || set.has(s[0]) {
        0
    } else {
        1 + index_of(s.drop_first(), set)
    }
}

/// Position of the last character of `s` in `set`, or `-1` if there is none.
pub open spec fn last_index_of(s: Seq<char>, set: CharSet) -> int
    decreases s.len(),
{
    if s.len() == 0 {
        -1
    } else if set.has(s.last()) {
        s.len() - 1
    } else {
        last_index_of(s.drop_last(), set)
    }
}

/// Position of the first occurrence of `a` directly followed by `b`, or `s.len()`
/// if there is none.
pub open spec fn index_of_pair(s: Seq<char>, a: char, b: char) -> int
    decreases s.len(),
{
    if s.len() < 2 {
        s.len() as int
    } else if s[0] == a && s[1] == b {
        0
    } else {
        1 + index_of_pair(s.drop_first(), a, b)
    }
}

/// The bounds `0 <= leading_whitespace(s) <= s.len()` and what lies on each side.
pub proof fn lemma_leading_whitespace(s: Seq<char>)
    ensures
        leading_whitespace(s) <= s.len(),
        forall|i: int| 0 <= i < leading_whitespace(s) ==> whitespace(#[trigger] s[i]),
        leading_whitespace(s) < s.len() ==> !whitespace(s[leading_whitespace(s) as int]),
    decreases s.len(),
{
    if s.len() > 0 && whitespace(s[0]) {
        let t = s.drop_first();
        lemma_leading_whitespace(t);
        assert forall|i: int| 0 <= i < leading_whitespace(s) implies whitespace(
            #[trigger] s[i],
        ) by {
            if i > 0 {
                assert(s[i] == t[i - 1]);
            }
        }
        if leading_whitespace(s) < s.len() {
            assert(s[leading_whitespace(s) as int] == t[leading_whitespace(t) as int]);
        }
    }
}

/// `leading_whitespace` is determined by the first character that is not white space.
pub proof fn lemma_leading_whitespace_is(s: Seq<char>, n: int)
    requires
        0 <= n <= s.len(),
        forall|i: int| 0 <= i < n ==> whitespace(#[trigger] s[i]),
        n < s.len() ==> !whitespace(s[n]),
    ensures
        leading_whitespace(s) == n,
    decreases s.len(),
{
    if n > 0 {
        let t = s.drop_first();
        assert(whitespace(s[0]));
        assert forall|i: int| 0 <= i < n - 1 implies whitespace(#[trigger] t[i]) by {
            assert(t[i] == s[i + 1]);
        }
        lemma_leading_whitespace_is(t, n - 1);
    }
}

/// `trailing_whitespace` is determined by the last character that is not white space.
pub proof fn lemma_trailing_whitespace_is(s: Seq<char>, n: int)
    requires
        0 <= n <= s.len(),
        forall|i: int| s.len() - n <= i < s.len() ==> whitespace(#[trigger] s[i]),
        n < s.len() ==> !whitespace(s[s.len() - n - 1]),
    ensures
        trailing_whitespace(s) == n,
    decreases s.len(),
{
    if n > 0 {
        let t = s.drop_last();
        assert(whitespace(s[s.len() - 1]));
        assert forall|i: int| t.len() - (n - 1) <= i < t.len() implies whitespace(
            #[trigger] t[i],
        ) by {
            assert(t[i] == s[i]);
        }
        lemma_trailing_whitespace_is(t, n - 1);
    }
}

/// `index_of` returns the first position in the class, and nothing before it is in it.
pub proof fn lemma_index_of(s: Seq<char>, set: CharSet)
    ensures
        0 <= index_of(s, set) <= s.len(),
        forall|i: int| 0 <= i < index_of(s, set) ==> !set.has(#[trigger] s[i]),
        index_of(s, set) < s.len() ==> set.has(s[index_of(s, set)]),
    decreases s.len(),
{
    if !(s.len() == 0 || set.has(s[0])) {
        let t = s.drop_first();
        lemma_index_of(t, set);
        assert forall|i: int| 0 <= i < index_of(s, set) implies !set.has(#[trigger] s[i]) by {
            if i > 0 {
                assert(s[i] == t[i - 1]);
            }
        }
        if index_of(s, set) < s.len() {
            assert(s[index_of(s, set)] == t[index_of(t, set)]);
        }
    }
}

/// `index_of` is determined by the first position in the class.
pub proof fn lemma_index_of_is(s: Seq<char>, set: CharSet, n: int)
    requires
        0 <= n <= s.len(),
        forall|i: int| 0 <= i < n ==> !set.has(#[trigger] s[i]),
        n < s.len() ==> set.has(s[n]),
    ensures
        index_of(s, set) == n,
    decreases s.len(),
{
    if n > 0 {
        let t = s.drop_first();
        assert(!set.has(s[0]));
        assert forall|i: int| 0 <= i < n - 1 implies !set.has(#[trigger] t[i]) by {
            assert(t[i] == s[i + 1]);
        }
        lemma_index_of_is(t, set, n - 1);
    }
}

/// `last_index_of` returns the last position in the class, and nothing after it is in it.
pub proof fn lemma_last_index_of(s: Seq<char>, set: CharSet)
    ensures
        -1 <= last_index_of(s, set) < s.len(),
        forall|i: int| last_index_of(s, set) < i < s.len() ==> !set.has(#[trigger] s[i]),
        0 <= last_index_of(s, set) ==> set.has(s[last_index_of(s, set)]),
    decreases s.len(),
{
    if s.len() > 0 && !set.has(s.last()) {
        let t = s.drop_last();
        lemma_last_index_of(t, set);
        assert forall|i: int| last_index_of(s, set) < i < s.len() implies !set.has(
            #[trigger] s[i],
        ) by {
            if i < s.len() - 1 {
                assert(s[i] == t[i]);
            }
        }
    }
}

/// `last_index_of` is determined by the last position in the class.
pub proof fn lemma_last_index_of_is(s: Seq<char>, set: CharSet, n: int)
    requires
        -1 <= n < s.len(),
        forall|i: int| n < i < s.len() ==> !set.has(#[trigger] s[i]),
        0 <= n ==> set.has(s[n]),
    ensures
        last_index_of(s, set) == n,
    decreases s.len(),
{
    if s.len() > 0 && n < s.len() - 1 {
        let t = s.drop_last();
        assert(!set.has(s[s.len() - 1]));
        assert forall|i: int| n < i < t.len() implies !set.has(#[trigger] t[i]) by {
            assert(t[i] == s[i]);
        }
        lemma_last_index_of_is(t, set, n);
    }
}

/// `index_of_pair` is determined by the first position where the pair stands.
pub proof fn lemma_index_of_pair_is(s: Seq<char>, a: char, b: char, n: int)
    requires
        0 <= n <= s.len(),
        forall|i: int| 0 <= i < n && i + 1 < s.len() ==> !(#[trigger] s[i] == a && s[i + 1] == b),
        n < s.len() ==> n + 1 < s.len() && s[n] == a && s[n + 1] == b,
    ensures
        index_of_pair(s, a, b) == n,
    decreases s.len(),
{
    if s.len() >= 2 && n > 0 {
        let t = s.drop_first();
        assert(!(s[0] == a && s[1] == b));
        assert forall|i: int| 0 <= i < n - 1 && i + 1 < t.len() implies !(#[trigger] t[i] == a
            && t[i + 1] == b) by {
            assert(t[i] == s[i + 1]);
            assert(t[i + 1] == s[i + 2]);
        }
        lemma_index_of_pair_is(t, a, b, n - 1);
    }
}

/// `index_of_pair` returns the first position where the pair stands, and the
/// pair stands nowhere before it.
pub proof fn lemma_index_of_pair(s: Seq<char>, a: char, b: char)
    ensures
        0 <= index_of_pair(s, a, b) <= s.len(),
        forall|i: int|
            0 <= i < index_of_pair(s, a, b) && i + 1 < s.len() ==> !(#[trigger] s[i] == a && s[i
                + 1] == b),
        index_of_pair(s, a, b) < s.len() ==> {
            let n = index_of_pair(s, a, b);
            n + 1 < s.len() && s[n] == a && s[n + 1] == b
        },
    decreases s.len(),
{
    if s.len() >= 2 && !(s[0] == a && s[1] == b) {
        let t = s.drop_first();
        lemma_index_of_pair(t, a, b);
        let n = index_of_pair(s, a, b);
        assert forall|i: int| 0 <= i < n && i + 1 < s.len() implies !(#[trigger] s[i] == a && s[i
            + 1] == b) by {
            if i > 0 {
                assert(s[i] == t[i - 1]);
                assert(s[i + 1] == t[i]);
            }
        }
        if n < s.len() {
            assert(s[n] == t[n - 1]);
            assert(s[n + 1] == t[n]);
        }
    }
}

/// Number of characters at the start of `s` that are `c`.
pub open spec fn leading(s: Seq<char>, c: char) -> nat
    decreases s.len(),
{
    if s.len() > 0 && s[0] == c {
        1 + leading(s.drop_first(), c)
    } else {
        0
    }
}

/// Number of characters at the end of `s` that are `c`.
pub open spec fn trailing(s: Seq<char>, c: char) -> nat
    decreases s.len(),
{
    if s.len() > 0 && s.last() == c {
        1 + trailing(s.drop_last(), c)
    } else {
        0
    }
}

/// `leading` is determined by the first character that is not `c`.
pub proof fn lemma_leading_is(s: Seq<char>, c: char, n: int)
    requires
        0 <= n <= s.len(),
        forall|i: int| 0 <= i < n ==> #[trigger] s[i] == c,
        n < s.len() ==> s[n] != c,
    ensures
        leading(s, c) == n,
    decreases s.len(),
{
    if n > 0 {
        let t = s.drop_first();
        assert(s[0] == c);
        assert forall|i: int| 0 <= i < n - 1 implies #[trigger] t[i] == c by {
            assert(t[i] == s[i + 1]);
        }
        lemma_leading_is(t, c, n - 1);
    }
}

/// `trailing` is determined by the last character that is not `c`.
pub proof fn lemma_trailing_is(s: Seq<char>, c: char, n: int)
    requires
        0 <= n <= s.len(),
        forall|i: int| s.len() - n <= i < s.len() ==> #[trigger] s[i] == c,
        n < s.len() ==> s[s.len() - n - 1] != c,
    ensures
        trailing(s, c) == n,
    decreases s.len(),
{
    if n > 0 {
        let t = s.drop_last();
        assert(s[s.len() - 1] == c);
        assert forall|i: int| t.len() - (n - 1) <= i < t.len() implies #[trigger] t[i] == c by {
            assert(t[i] == s[i]);
        }
        lemma_trailing_is(t, c, n - 1);
    }
}

/// Whether `c` is Unicode white space.
pub fn is_whitespace(c: char) -> (r: bool)
    ensures
        r == whitespace(c),
{
    let n: u32 = c as u32;
    (0x09 <= n && n <= 0x0d) || n == 0x20 || n == 0x85 || n == 0xa0 || n == 0x1680 || (0x2000
        <= n && n <= 0x200a) || n == 0x2028 || n == 0x2029 || n == 0x202f || n == 0x205f || n
        == 0x3000
}

/// Whether `c` is a space, tab, line feed, form feed or carriage return.
pub fn is_ascii_whitespace(c: char) -> (r: bool)
    ensures
        r == ascii_whitespace(c),
{
    c == ' ' || c == '\t' || c == '\n' || c == '\u{c}' || c == '\r'
}

/// ASCII lower-casing of one character.
pub fn to_lower(c: char) -> (r: char)
    ensures
        r == lower(c),
{
    if 'A' <= c && c <= 'Z' {
        ((c as u8) + 32) as char
    } else {
        c
    }
}

/// `s` without its leading white space.
pub fn trim_start<'a>(s: &'a [char]) -> (r: &'a [char])
    ensures
        r@ == trimmed_start(s@),
{
    let mut i: usize = 0;
    while i < s.len() && is_whitespace(s[i])
        invariant
            i <= s.len(),
            forall|k: int| 0 <= k < i ==> whitespace(#[trigger] s@[k]),
        decreases s.len() - i,
    {
        i += 1;
    }
    proof {
        lemma_leading_whitespace_is(s@, i as int);
    }
    slice_subrange(s, i, s.len())
}

/// `s` without its trailing white space.
pub fn trim_end<'a>(s: &'a [char]) -> (r: &'a [char])
    ensures
        r@ == trimmed_end(s@),
{
    let mut n: usize = s.len();
    while n > 0 && is_whitespace(s[n - 1])
        invariant
            n <= s.len(),
            forall|k: int| n <= k < s.len() ==> whitespace(#[trigger] s@[k]),
        decreases n,
    {
        n -= 1;
    }
    proof {
        lemma_trailing_whitespace_is(s@, s.len() - n);
    }
    slice_subrange(s, 0, n)
}

/// `s` without leading and trailing white space.
pub fn trim<'a>(s: &'a [char]) -> (r: &'a [char])
    ensures
        r@ == trimmed(s@),
{
    trim_end(trim_start(s))
}

/// Position of the first character of `s` in `set`, or `s.len()`.
pub fn find(s: &[char], set: CharSet) -> (i: usize)
    ensures
        i == index_of(s@, set),
        i <= s.len(),
{
    let mut i: usize = 0;
    while i < s.len() && !set.contains(s[i])
        invariant
            i <= s.len(),
            forall|k: int| 0 <= k < i ==> !set.has(#[trigger] s@[k]),
        decreases s.len() - i,
    {
        i += 1;
    }
    proof {
        lemma_index_of_is(s@, set, i as int);
    }
    i
}

/// Position of the last character of `s` in `set`, if there is one.
pub fn rfind(s: &[char], set: CharSet) -> (r: Option<usize>)
    ensures
        match r {
            Some(i) => i == last_index_of(s@, set),
            None => last_index_of(s@, set) == -1,
        },
{
    let mut n: usize = s.len();
    while n > 0 && !set.contains(s[n - 1])
        invariant
            n <= s.len(),
            forall|k: int| n <= k < s.len() ==> !set.has(#[trigger] s@[k]),
        decreases n,
    {
        n -= 1;
    }
    proof {
        lemma_last_index_of_is(s@, set, n as int - 1);
    }
    if n == 0 {
        None
    } else {
        Some(n - 1)
    }
}

/// Position of the first `a` directly followed by `b`, or `s.len()`.
pub fn find_pair(s: &[char], a: char, b: char) -> (i: usize)
    ensures
        i == index_of_pair(s@, a, b),
        i <= s.len(),
        i < s.len() ==> i + 1 < s.len(),
{
    let mut i: usize = 0;
    while s.len() - i >= 2 && !(s[i] == a && s[i + 1] == b)
        invariant
            i <= s.len(),
            forall|k: int|
                0 <= k < i && k + 1 < s.len() ==> !(#[trigger] s@[k] == a && s@[k + 1] == b),
        decreases s.len() - i,
    {
        i += 1;
    }
    if s.len() - i >= 2 {
        proof {
            lemma_index_of_pair_is(s@, a, b, i as int);
        }
        i
    } else {
        proof {
            lemma_index_of_pair_is(s@, a, b, s.len() as int);
        }
        s.len()
    }
}

/// Whether `s` holds a character of `set`.
pub fn contains(s: &[char], set: CharSet) -> (r: bool)
    ensures
        r == (index_of(s@, set) < s.len()),
        r == exists|i: int| 0 <= i < s.len() && set.has(#[trigger] s@[i]),
{
    let i = find(s, set);
    proof {
        lemma_index_of(s@, set);
    }
    i < s.len()
}

/// Whether `a` and `b` are equal.
pub fn same(a: &[char], b: &[char]) -> (r: bool)
    ensures
        r == (a@ == b@),
{
    if a.len() != b.len() {
        return false;
    }
    let mut i: usize = 0;
    while i < a.len()
        invariant
            i <= a.len(),
            a.len() == b.len(),
            forall|k: int| 0 <= k < i ==> a@[k] == b@[k],
        decreases a.len() - i,
    {
        if a[i] != b[i] {
            return false;
        }
        i += 1;
    }
    assert(a@ =~= b@);
    true
}

/// Whether `a` and `b` are equal up to ASCII case.
pub fn eq_ignore_case(a: &[char], b: &[char]) -> (r: bool)
    ensures
        r == same_ignoring_case(a@, b@),
{
    if a.len() != b.len() {
        return false;
    }
    let mut i: usize = 0;
    while i < a.len()
        invariant
            i <= a.len(),
            a.len() == b.len(),
            forall|k: int| 0 <= k < i ==> lower(#[trigger] a@[k]) == lower(b@[k]),
        decreases a.len() - i,
    {
        if to_lower(a[i]) != to_lower(b[i]) {
            return false;
        }
        i += 1;
    }
    true
}

/// Whether `s` begins with `prefix`.
pub fn starts_with(s: &[char], prefix: &[char]) -> (r: bool)
    ensures
        r == prefix@.is_prefix_of(s@),
{
    if prefix.len() > s.len() {
        return false;
    }
    let r = same(slice_subrange(s, 0, prefix.len()), prefix);
    proof {
        if r {
            assert(prefix@ =~= s@.subrange(0, prefix@.len() as int));
        }
    }
    r
}

/// The characters of `s`, in order.
pub fn chars_of(s: &str) -> (out: Vec<char>)
    ensures
        out@ == s@,
{
    let mut out: Vec<char> = Vec::new();
    for c in it: s.chars()
        invariant
            out@ == it.seq().take(it.index() as int),
            it.seq() == s@,
    {
        out.push(c);
    }
    out
}

/// Appends one character to a string by `String::push`: the text grows by
/// exactly that character at its end.
#[verifier::external_body]
fn push_char(s: &mut String, c: char)
    ensures
        final(s)@ == old(s)@.push(c),
{
    s.push(c);
}

/// The string that holds exactly the characters of `s`.
pub fn string_of(s: &[char]) -> (out: String)
    ensures
        out@ == s@,
{
    let mut out = String::new();
    let mut i: usize = 0;
    while i < s.len()
        invariant
            i <= s.len(),
            out@ == s@.take(i as int),
        decreases s.len() - i,
    {
        push_char(&mut out, s[i]);
        assert(s@.take(i as int).push(s@[i as int]) =~= s@.take(i as int + 1));
        i += 1;
    }
    assert(s@.take(i as int) =~= s@);
    out
}

/// Whether two strings hold the same text.
pub fn str_eq(a: &str, b: &str) -> (r: bool)
    ensures
        r == (a@ == b@),
{
    let x = chars_of(a);
    let y = chars_of(b);
    same(x.as_slice(), y.as_slice())
}

/// `s` cut to at most `max_len` characters: `s` itself if it is short enough,
/// else its first `max_len - 3` characters and three dots.
pub open spec fn truncated(s: Seq<char>, max_len: nat) -> Seq<char> {
    if s.len() <= max_len {
        s
    } else if max_len >= 3 {
        s.take(max_len - 3) + "..."@
    } else {
        "..."@
    }
}

/// `s` cut to at most `max_len` characters, with three dots where it was cut.
pub fn truncate_comment(s: &str, max_len: usize) -> (out: String)
    ensures
        out@ == truncated(s@, max_len as nat),
{
    let cs = chars_of(s);
    if cs.len() <= max_len {
        return string_of(cs.as_slice());
    }
    let keep: usize = if max_len >= 3 {
        max_len - 3
    } else {
        0
    };
    let mut out = string_of(slice_subrange(cs.as_slice(), 0, keep));
    out.append("...");
    proof {
        if max_len < 3 {
            assert(cs@.subrange(0, 0) + "..."@ =~= "..."@);
        }
    }
    out
}

/// A fingerprint cut to at most `max_len` characters, with three dots where
/// it was cut.
pub fn truncate_fingerprint(fp: &str, max_len: usize) -> (out: String)
    ensures
        out@ == truncated(fp@, max_len as nat),
{
    truncate_comment(fp, max_len)
}

} // verus!

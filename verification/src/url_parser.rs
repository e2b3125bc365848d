//! The parts of an absolute address: scheme, user, host name and the rest.

use vstd::prelude::*;
use vstd::slice::{slice_subrange, slice_to_vec};

use crate::filters::pattern::{is_separator, separates};
use crate::outside::{ascii_domain, domain_to_ascii, find_root_domain, root_domain};
use crate::text::{
    chars_of, extend, find, lower, rfind, same_text, starts_with, string_of, to_lower, trim,
    trimmed,
};

verus! {

/// The parts of an address `scheme://user@host` and what follows the host.
pub struct UrlParts {
    pub scheme: Seq<char>,
    /// The user information, with its `@`; empty where there is none.
    pub user: Seq<char>,
    pub host: Seq<char>,
    pub tail: Seq<char>,
}

impl UrlParts {
    /// The address that the parts make up.
    pub open spec fn address(self) -> Seq<char> {
        self.scheme + "://"@ + self.user + self.host + self.tail
    }

    /// The host name and what follows it.
    pub open spec fn hosted(self) -> Seq<char> {
        self.host + self.tail
    }
}

/// An ASCII letter.
pub open spec fn is_letter(c: char) -> bool {
    ('a' <= c <= 'z') || ('A' <= c <= 'Z')
}

/// The characters that a scheme may be written with.
pub open spec fn is_scheme_char(c: char) -> bool {
    is_letter(c) || ('0' <= c <= '9') || c == '+' || c == '-' || c == '.'
}

/// A scheme starts with a letter.
pub open spec fn is_scheme(s: Seq<char>) -> bool {
    &&& s.len() > 0
    &&& is_letter(s[0])
    &&& forall|i: int| 0 <= i < s.len() ==> #[trigger] is_scheme_char(s[i])
}

/// The characters that end the part of an address in which the host stands.
pub open spec fn ends_authority(c: char) -> bool {
    c == '/' || c == '?' || c == '#' || c == '\\'
}

/// How many characters of `s` come before the first that ends the authority.
pub open spec fn authority_len(s: Seq<char>) -> int
    decreases s.len(),
{
    if s.len() == 0 || ends_authority(s[0]) {
        0
    } else {
        1 + authority_len(s.drop_first())
    }
}

/// How many characters of `s`, an authority without its user information, name
/// the host: a literal in brackets, or everything before the first colon.
pub open spec fn host_len(s: Seq<char>) -> int {
    if s.len() > 0 && s[0] == '[' {
        match s.index_of_first(']') {
            Some(i) => i + 1,
            None => 0,
        }
    } else {
        match s.index_of_first(':') {
            Some(i) => i,
            None => s.len() as int,
        }
    }
}

/// The characters that a host may be written with.
pub open spec fn is_host_char(c: char) -> bool {
    !is_separator(c) && c != '%'
}

/// A host as it may be written: a name, or an address literal in brackets.
pub open spec fn is_host_text(s: Seq<char>) -> bool {
    if s.len() > 0 && s[0] == '[' {
        &&& s.len() > 2
        &&& forall|i: int|
            0 < i < s.len() - 1 ==> is_host_char(#[trigger] s[i]) || s[i] == ':'
    } else {
        &&& s.len() > 0
        &&& forall|i: int| 0 <= i < s.len() ==> is_host_char(#[trigger] s[i])
    }
}

/// The text holds ASCII characters alone.
pub open spec fn is_ascii_text(s: Seq<char>) -> bool {
    forall|i: int| 0 <= i < s.len() ==> #[trigger] s[i] <= '\u{7f}'
}

/// A domain name in lower case and in its ASCII form; none where it has none.
pub open spec fn ascii_form(s: Seq<char>) -> Option<Seq<char>> {
    if is_ascii_text(s) {
        Some(lower(s))
    } else {
        ascii_domain(s)
    }
}

/// The host name that a text stands for: lower case, and in its ASCII form.
pub open spec fn host_name(s: Seq<char>) -> Option<Seq<char>> {
    if !is_host_text(s) {
        None
    } else {
        ascii_form(s)
    }
}

/// The parts of an address; none where the text is no absolute address with a host.
pub open spec fn parse_url(text: Seq<char>) -> Option<UrlParts> {
    let s = trim(text);
    match s.index_of_first(':') {
        None => None,
        Some(c) => {
            let after = s.skip(c + 1);
            if !is_scheme(s.take(c)) || !"//"@.is_prefix_of(after) {
                None
            } else {
                let rest = after.skip(2);
                let end = authority_len(rest);
                let authority = rest.take(end);
                let user = match authority.index_of_last('@') {
                    Some(at) => at + 1,
                    None => 0,
                };
                let place = authority.skip(user);
                match host_name(place.take(host_len(place))) {
                    None => None,
                    Some(host) => Some(
                        UrlParts {
                            scheme: lower(s.take(c)),
                            user: authority.take(user),
                            host,
                            tail: rest.skip(user + host_len(place)),
                        },
                    ),
                }
            }
        },
    }
}

/// The domain under which a host name is registered, or the host name itself
/// where it has none.
pub open spec fn domain_of(host: Seq<char>) -> Seq<char> {
    match root_domain(host) {
        Some(domain) => domain,
        None => host,
    }
}

/// The parts of an address.
pub struct ParsedUrl {
    pub scheme: Vec<char>,
    pub user: Vec<char>,
    pub host: Vec<char>,
    pub tail: Vec<char>,
}

impl View for ParsedUrl {
    type V = UrlParts;

    open spec fn view(&self) -> UrlParts {
        UrlParts {
            scheme: self.scheme@,
            user: self.user@,
            host: self.host@,
            tail: self.tail@,
        }
    }
}

impl ParsedUrl {
    /// The address that the parts make up.
    pub fn address(&self) -> (r: Vec<char>)
        ensures
            r@ == self@.address(),
    {
        let mut r = slice_to_vec(self.scheme.as_slice());
        extend(&mut r, chars_of("://").as_slice());
        extend(&mut r, self.user.as_slice());
        extend(&mut r, self.host.as_slice());
        extend(&mut r, self.tail.as_slice());
        r
    }

    /// The host name and what follows it.
    pub fn hosted(&self) -> (r: Vec<char>)
        ensures
            r@ == self@.hosted(),
    {
        let mut r = slice_to_vec(self.host.as_slice());
        extend(&mut r, self.tail.as_slice());
        r
    }
}

fn scheme_ok(s: &[char]) -> (r: bool)
    ensures
        r == is_scheme(s@),
{
    if s.len() == 0 {
        return false;
    }
    let first = s[0];
    if !(('a' <= first && first <= 'z') || ('A' <= first && first <= 'Z')) {
        return false;
    }
    let mut i: usize = 0;
    while i < s.len()
        invariant
            i <= s@.len(),
            forall|j: int| 0 <= j < i ==> #[trigger] is_scheme_char(s@[j]),
        decreases s@.len() - i,
    {
        let c = s[i];
        if !(('a' <= c && c <= 'z') || ('A' <= c && c <= 'Z') || ('0' <= c && c <= '9') || c == '+'
            || c == '-' || c == '.') {
            assert(!is_scheme_char(s@[i as int]));
            return false;
        }
        i += 1;
    }
    true
}

fn find_authority_end(s: &[char]) -> (r: usize)
    ensures
        r == authority_len(s@),
        r <= s@.len(),
{
    let mut i: usize = 0;
    assert(s@.skip(0) =~= s@);
    while i < s.len()
        invariant
            i <= s@.len(),
            authority_len(s@) == i + authority_len(s@.skip(i as int)),
        decreases s@.len() - i,
    {
        let c = s[i];
        assert(s@.skip(i as int)[0] == c);
        if c == '/' || c == '?' || c == '#' || c == '\\' {
            return i;
        }
        assert(s@.skip(i as int).drop_first() =~= s@.skip(i + 1));
        i += 1;
    }
    i
}

fn find_host_end(s: &[char]) -> (r: usize)
    ensures
        r == host_len(s@),
        r <= s@.len(),
{
    if s.len() > 0 && s[0] == '[' {
        match find(s, ']') {
            Some(i) => i + 1,
            None => 0,
        }
    } else {
        match find(s, ':') {
            Some(i) => i,
            None => s.len(),
        }
    }
}

fn host_text_ok(s: &[char]) -> (r: bool)
    ensures
        r == is_host_text(s@),
{
    if s.len() == 0 {
        return false;
    }
    let literal = s[0] == '[';
    if literal && s.len() <= 2 {
        return false;
    }
    let mut i: usize = if literal {
        1
    } else {
        0
    };
    let end: usize = if literal {
        s.len() - 1
    } else {
        s.len()
    };
    while i < end
        invariant
            literal == (s@[0] == '['),
            s@.len() > 0,
            end == if literal {
                s@.len() - 1
            } else {
                s@.len() as int
            },
            i <= end,
            literal ==> 1 <= i,
            forall|j: int|
                (if literal {
                    1int
                } else {
                    0int
                }) <= j < i ==> is_host_char(#[trigger] s@[j]) || (literal && s@[j] == ':'),
        decreases end - i,
    {
        let c = s[i];
        if (separates(c) || c == '%') && !(literal && c == ':') {
            assert(!is_host_char(s@[i as int]));
            return false;
        }
        i += 1;
    }
    true
}

/// Whether the text holds ASCII characters alone.
pub fn all_ascii(s: &[char]) -> (r: bool)
    ensures
        r == is_ascii_text(s@),
{
    let mut i: usize = 0;
    while i < s.len()
        invariant
            i <= s@.len(),
            forall|j: int| 0 <= j < i ==> #[trigger] s@[j] <= '\u{7f}',
        decreases s@.len() - i,
    {
        let c = s[i];
        if c > '\u{7f}' {
            return false;
        }
        i += 1;
    }
    true
}

/// A domain name in lower case and in its ASCII form.
pub fn to_ascii_form(s: &[char]) -> (r: Option<Vec<char>>)
    ensures
        match r {
            Some(name) => ascii_form(s@) == Some(name@),
            None => ascii_form(s@) is None,
        },
{
    if all_ascii(s) {
        Some(to_lower(s))
    } else {
        match domain_to_ascii(string_of(s).as_str()) {
            Some(name) => Some(chars_of(name.as_str())),
            None => None,
        }
    }
}

/// The host name that a text stands for.
pub fn parse_host(s: &[char]) -> (r: Option<Vec<char>>)
    ensures
        match r {
            Some(host) => host_name(s@) == Some(host@),
            None => host_name(s@) is None,
        },
{
    if !host_text_ok(s) {
        None
    } else {
        to_ascii_form(s)
    }
}

/// The parts of an address; none where the text is no absolute address with a host.
pub fn parse(text: &str) -> (r: Option<ParsedUrl>)
    ensures
        match r {
            Some(url) => parse_url(text@) == Some(url@),
            None => parse_url(text@) is None,
        },
{
    let all = chars_of(text);
    let s = trimmed(all.as_slice());
    let n: usize = s.len();
    let c: usize = match find(s, ':') {
        Some(c) => c,
        None => {
            return None;
        },
    };
    let scheme = slice_subrange(s, 0, c);
    let after = slice_subrange(s, c + 1, n);
    assert(scheme@ =~= s@.take(c as int));
    assert(after@ =~= s@.skip(c + 1));
    if !scheme_ok(scheme) || !starts_with(after, "//") {
        return None;
    }
    proof {
        reveal_strlit("//");
    }
    let rest = slice_subrange(after, 2, after.len());
    assert(rest@ =~= after@.skip(2));
    let end = find_authority_end(rest);
    let authority = slice_subrange(rest, 0, end);
    assert(authority@ =~= rest@.take(end as int));
    let user: usize = match rfind(authority, '@') {
        Some(at) => at + 1,
        None => 0,
    };
    let place = slice_subrange(authority, user, authority.len());
    assert(place@ =~= authority@.skip(user as int));
    let len = find_host_end(place);
    let host_text = slice_subrange(place, 0, len);
    assert(host_text@ =~= place@.take(len as int));
    match parse_host(host_text) {
        None => None,
        Some(host) => {
            let user_text = slice_subrange(authority, 0, user);
            assert(user_text@ =~= authority@.take(user as int));
            let tail = slice_subrange(rest, user + len, rest.len());
            assert(tail@ =~= rest@.skip(user + len));
            Some(
                ParsedUrl {
                    scheme: to_lower(scheme),
                    user: slice_to_vec(user_text),
                    host,
                    tail: slice_to_vec(tail),
                },
            )
        },
    }
}

/// The domain under which a host name is registered, or the host name itself.
pub fn find_domain(host: &[char]) -> (r: Vec<char>)
    ensures
        r@ == domain_of(host@),
{
    match find_root_domain(string_of(host).as_str()) {
        Some(domain) => chars_of(domain.as_str()),
        None => slice_to_vec(host),
    }
}

/// Whether two host names belong to different registered domains.
pub fn differ_in_domain(a: &[char], b: &[char]) -> (r: bool)
    ensures
        r == (domain_of(a@) != domain_of(b@)),
{
    let a_domain = find_domain(a);
    let b_domain = find_domain(b);
    !same_text(a_domain.as_slice(), b_domain.as_slice())
}

} // verus!

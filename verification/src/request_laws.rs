//! What holds of requests: how an address is taken apart, and what of it rules see.

use vstd::prelude::*;

use crate::cosmetic_laws::is_plain_char;
use crate::option_laws::names_kind;
use crate::option_names::lemma_names_differ;
use crate::outside::{ascii_domain, root_domain};
use crate::request::{
    hosted_at, request_from_hostnames, request_from_url, request_from_urls, request_type_of,
    RequestModel, RequestType,
};
use crate::text::{find_text, is_space, lemma_find_text_from, lemma_trim, lower, occurs_at};
use crate::text_laws::white_space_is_trimmed;
use crate::url_parser::{
    ascii_form, authority_len, ends_authority, host_len, host_name, is_ascii_text, is_host_text,
    is_scheme, is_scheme_char, parse_url,
};

verus! {

/// The text of a scheme: a letter, and letters, digits, `+`, `-` and `.`.
pub open spec fn is_scheme_text(s: Seq<char>) -> bool {
    &&& s.len() > 0
    &&& is_ascii_letter(s[0])
    &&& forall|i: int|
        0 <= i < s.len() ==> is_ascii_letter(#[trigger] s[i]) || (0x30 <= s[i] as u32 <= 0x39)
            || s[i] == '+' || s[i] == '-' || s[i] == '.'
}

/// An ASCII letter.
pub open spec fn is_ascii_letter(c: char) -> bool {
    (0x41 <= c as u32 <= 0x5a) || (0x61 <= c as u32 <= 0x7a)
}

/// The text of a host name: letters, digits, `-`, `.` and `_`.
pub open spec fn is_name_text(s: Seq<char>) -> bool {
    &&& s.len() > 0
    &&& forall|i: int| 0 <= i < s.len() ==> is_plain_char(#[trigger] s[i]) && s[i] != '*'
}

/// The text of an address in brackets: digits, letters, `.` and `:` between them.
pub open spec fn is_bracket_text(s: Seq<char>) -> bool {
    &&& s.len() > 2
    &&& s[0] == '[' && s.last() == ']'
    &&& forall|i: int|
        0 < i < s.len() - 1 ==> (is_plain_char(#[trigger] s[i]) && s[i] != '*') || s[i] == ':'
}

/// None of the characters that end the part of an address in which the host stands.
pub open spec fn is_before_path(s: Seq<char>) -> bool {
    !s.contains('/') && !s.contains('?') && !s.contains('#') && !s.contains('\\')
}

/// What a user is told by in an address: nothing, or a text that ends in `@`.
pub open spec fn is_user_text(s: Seq<char>) -> bool {
    s.len() == 0 || (s.last() == '@' && is_before_path(s))
}

/// What a port is told by in an address: nothing, or a text that starts with `:`.
pub open spec fn is_port_text(s: Seq<char>) -> bool {
    s.len() == 0 || (s[0] == ':' && is_before_path(s) && !s.contains('@'))
}

/// What follows the host and the port in an address: nothing, or a text that starts with
/// a slash, `?` or `#`.
pub open spec fn is_path_text(s: Seq<char>) -> bool {
    s.len() == 0 || s[0] == '/' || s[0] == '?' || s[0] == '#' || s[0] == '\\'
}

/// An address of its parts.
pub open spec fn address_of(
    scheme: Seq<char>,
    user: Seq<char>,
    host: Seq<char>,
    port: Seq<char>,
    path: Seq<char>,
) -> Seq<char> {
    scheme + seq![':', '/', '/'] + user + host + port + path
}

/// The parts of an address.
pub open spec fn are_address_parts(
    scheme: Seq<char>,
    user: Seq<char>,
    host: Seq<char>,
    port: Seq<char>,
    path: Seq<char>,
) -> bool {
    &&& is_scheme_text(scheme)
    &&& is_user_text(user)
    &&& is_name_text(host) || is_bracket_text(host)
    &&& is_port_text(port)
    &&& is_path_text(path)
    &&& path.len() > 0 ==> !is_space(path.last())
    &&& path.len() == 0 && port.len() > 0 ==> !is_space(port.last())
}

proof fn lemma_host_char(c: char)
    requires
        is_plain_char(c) && c != '*',
    ensures
        crate::url_parser::is_host_char(c),
        c <= '\u{7f}',
        !ends_authority(c) && c != '@' && c != ':' && c != '[' && c != ']',
        !is_space(c),
{
}

proof fn lemma_scheme_char(c: char)
    requires
        is_ascii_letter(c) || (0x30 <= c as u32 <= 0x39) || c == '+' || c == '-' || c == '.',
    ensures
        is_scheme_char(c),
        c != ':',
        !is_space(c),
        is_ascii_letter(c) ==> crate::url_parser::is_letter(c),
{
}

proof fn lemma_authority_len(s: Seq<char>, rest: Seq<char>)
    requires
        forall|i: int| 0 <= i < s.len() ==> !ends_authority(#[trigger] s[i]),
        rest.len() > 0 ==> ends_authority(rest[0]),
    ensures
        authority_len(s + rest) == s.len(),
    decreases s.len(),
{
    let all = s + rest;
    if s.len() == 0 {
        assert(all =~= rest);
    } else {
        let tail = s.drop_first();
        assert(all[0] == s[0]);
        assert(all.drop_first() =~= tail + rest);
        assert forall|i: int| 0 <= i < tail.len() implies !ends_authority(#[trigger] tail[i]) by {
            assert(tail[i] == s[i + 1]);
        }
        lemma_authority_len(tail, rest);
    }
}

/// The characters of the text of a host.
proof fn lemma_host_text(host: Seq<char>)
    requires
        is_name_text(host) || is_bracket_text(host),
    ensures
        is_before_path(host),
        !host.contains('@'),
        is_host_text(host),
        is_ascii_text(host),
        host_name(host) == Some(lower(host)),
        !is_space(host.last()),
{
    assert forall|i: int| 0 <= i < host.len() implies {
        let c = #[trigger] host[i];
        &&& c <= '\u{7f}'
        &&& !ends_authority(c) && c != '@'
        &&& !is_space(c)
        &&& is_name_text(host) ==> crate::url_parser::is_host_char(c) && c != '['
        &&& is_bracket_text(host) && 0 < i < host.len() - 1 ==> crate::url_parser::is_host_char(c)
            || c == ':'
    } by {
        if is_plain_char(host[i]) && host[i] != '*' {
            lemma_host_char(host[i]);
        }
    }
    assert(host[host.len() - 1] == host.last());
    assert(host[0] <= '\u{7f}');
}

proof fn lemma_host_len(host: Seq<char>, port: Seq<char>)
    requires
        is_name_text(host) || is_bracket_text(host),
        is_port_text(port),
    ensures
        host_len(host + port) == host.len(),
{
    let s = host + port;
    let n = host.len() as int;
    assert(s[0] == host[0]);
    if is_name_text(host) {
        assert forall|i: int| 0 <= i < n implies #[trigger] s[i] != ':' && s[i] != '[' by {
            assert(s[i] == host[i]);
            lemma_host_char(host[i]);
        }
        s.index_of_first_ensures(':');
        if port.len() > 0 {
            assert(s[n] == ':');
            assert(s.contains(':'));
        } else if s.contains(':') {
            let i = choose|i: int| 0 <= i < s.len() && s[i] == ':';
            assert(s[i] != ':');
        }
    } else {
        assert forall|i: int| 0 <= i < n - 1 implies #[trigger] s[i] != ']' by {
            assert(s[i] == host[i]);
            if i > 0 && is_plain_char(host[i]) && host[i] != '*' {
                lemma_host_char(host[i]);
            }
        }
        s.index_of_first_ensures(']');
        assert(s[n - 1] == ']');
        assert(s.contains(']'));
    }
}

proof fn lemma_user_len(user: Seq<char>, place: Seq<char>)
    requires
        is_user_text(user),
        !place.contains('@'),
    ensures
        match (user + place).index_of_last('@') {
            Some(at) => at + 1 == user.len(),
            None => user.len() == 0,
        },
{
    let s = user + place;
    let n = user.len() as int;
    s.index_of_last_ensures('@');
    if n > 0 {
        assert(s[n - 1] == '@');
        assert(s.contains('@'));
        let i = s.index_of_last('@')->0;
        if i >= n {
            assert(place[i - n] == '@');
        }
        if i < n - 1 {
            assert(s[n - 1] != '@');
        }
    } else if s.contains('@') {
        let i = choose|i: int| 0 <= i < s.len() && s[i] == '@';
        assert(place[i] == '@');
    }
}

proof fn lemma_not_in_two(a: Seq<char>, b: Seq<char>, c: char)
    requires
        !a.contains(c),
        !b.contains(c),
    ensures
        !(a + b).contains(c),
{
    if (a + b).contains(c) {
        let i = choose|i: int| 0 <= i < (a + b).len() && (a + b)[i] == c;
        if i < a.len() {
            assert(a[i] == c);
        } else {
            assert(b[i - a.len()] == c);
        }
    }
}

/// An address is taken apart into what it was put together of, whatever stands for the
/// user, the port and the path; the scheme and the host come out in lower case.
pub proof fn addresses_are_taken_apart(
    scheme: Seq<char>,
    user: Seq<char>,
    host: Seq<char>,
    port: Seq<char>,
    path: Seq<char>,
)
    requires
        are_address_parts(scheme, user, host, port, path),
    ensures
        parse_url(address_of(scheme, user, host, port, path)) matches Some(url) && {
            &&& url.scheme == lower(scheme)
            &&& url.user == user
            &&& url.host == lower(host)
            &&& url.tail == port + path
        },
{
    let s = address_of(scheme, user, host, port, path);
    let c = scheme.len() as int;
    let place = host + port;
    let authority = user + place;
    lemma_host_text(host);
    lemma_scheme_char(scheme[0]);
    assert(s[0] == scheme[0]);
    assert(!is_space(s.last())) by {
        if path.len() > 0 {
            assert(s.last() == path.last());
        } else if port.len() > 0 {
            assert(s.last() == port.last());
        } else {
            assert(s.last() == host.last());
        }
    }
    lemma_trim(s);
    assert(s[c] == ':');
    s.index_of_first_ensures(':');
    assert(s.contains(':'));
    let k = s.index_of_first(':')->0;
    if k < c {
        assert(scheme[k] == ':');
        lemma_scheme_char(scheme[k]);
    }
    if k > c {
        assert(s[c] != ':');
    }
    assert(s.take(c) =~= scheme);
    assert forall|i: int| 0 <= i < scheme.len() implies #[trigger] is_scheme_char(scheme[i]) by {
        lemma_scheme_char(scheme[i]);
    }
    let after = s.skip(c + 1);
    reveal_strlit("//");
    assert(after.subrange(0, 2) =~= "//"@);
    let rest = after.skip(2);
    assert(rest =~= authority + path);
    lemma_not_in_two(host, port, '/');
    lemma_not_in_two(host, port, '?');
    lemma_not_in_two(host, port, '#');
    lemma_not_in_two(host, port, '\\');
    lemma_not_in_two(host, port, '@');
    lemma_not_in_two(user, place, '/');
    lemma_not_in_two(user, place, '?');
    lemma_not_in_two(user, place, '#');
    lemma_not_in_two(user, place, '\\');
    assert forall|i: int| 0 <= i < authority.len() implies !ends_authority(
        #[trigger] authority[i],
    ) by {
        assert(authority.contains(authority[i]));
    }
    lemma_authority_len(authority, path);
    assert(rest.take(authority.len() as int) =~= authority);
    lemma_user_len(user, place);
    assert(authority.skip(user.len() as int) =~= place);
    assert(authority.take(user.len() as int) =~= user);
    lemma_host_len(host, port);
    assert(place.take(host.len() as int) =~= host);
    assert(rest.skip(user.len() + host.len() as int) =~= port + path);
}

/// White space around an address does not count.
pub proof fn white_space_around_addresses(before: Seq<char>, text: Seq<char>, after: Seq<char>)
    requires
        forall|i: int| 0 <= i < before.len() ==> is_space(#[trigger] before[i]),
        forall|i: int| 0 <= i < after.len() ==> is_space(#[trigger] after[i]),
        text.len() > 0 ==> !is_space(text[0]) && !is_space(text.last()),
    ensures
        parse_url(before + text + after) == parse_url(text),
{
    white_space_is_trimmed(before, text, after);
    let none = Seq::<char>::empty();
    white_space_is_trimmed(none, text, none);
    assert(none + text + none =~= text);
}

/// A text without `:`, one whose first `:` is not followed by two slashes, and one that does
/// not start with a letter, are no addresses.
pub proof fn other_texts_are_no_addresses(text: Seq<char>)
    requires
        text.len() > 0 ==> !is_space(text[0]) && !is_space(text.last()),
        !text.contains(':') || !is_ascii_letter(text[0]) || exists|i: int|
            0 <= i < text.len() && #[trigger] text[i] == ':' && !text.take(i).contains(':') && (
            text.len() < i + 3 || text[i + 1] != '/' || text[i + 2] != '/'),
    ensures
        parse_url(text) is None,
{
    lemma_trim(text);
    text.index_of_first_ensures(':');
    reveal_strlit("//");
    if text.contains(':') {
        let c = text.index_of_first(':')->0;
        let after = text.skip(c + 1);
        if is_scheme(text.take(c)) {
            assert(text.take(c)[0] == text[0]);
        }
        if "//"@.is_prefix_of(after) {
            let two = after.subrange(0, 2);
            assert(two[0] == after[0] && two[1] == after[1]);
            assert(text[c + 1] == '/' && text[c + 2] == '/');
        }
        if exists|i: int|
            0 <= i < text.len() && #[trigger] text[i] == ':' && !text.take(i).contains(':') && (
            text.len() < i + 3 || text[i + 1] != '/' || text[i + 2] != '/') {
            let i = choose|i: int|
                0 <= i < text.len() && #[trigger] text[i] == ':' && !text.take(i).contains(':') && (
                text.len() < i + 3 || text[i + 1] != '/' || text[i + 2] != '/');
            if i > c {
                assert(text.take(i)[c] == ':');
            }
            assert(i == c);
        }
    }
}

/// The scheme of an address decides whether rules apply, and which.
pub open spec fn schemes_agree(request: RequestModel, scheme: Seq<char>) -> bool {
    let s = lower(scheme);
    &&& request.is_http == (s == seq!['h', 't', 't', 'p'])
    &&& request.is_https == (s == seq!['h', 't', 't', 'p', 's'])
    &&& request.is_supported == (s == seq!['h', 't', 't', 'p'] || s == seq![
        'h',
        't',
        't',
        'p',
        's',
    ] || s == seq!['w', 's'] || s == seq!['w', 's', 's'])
}

/// A request has the parts of its address: its host name in lower case, the address with
/// the scheme and the host name in lower case, and what starts at the host name. Its kind is
/// the one that its name stands for, but under a web socket scheme it is that of a web
/// socket. Where the source is no address, nothing is known of it.
pub proof fn requests_have_their_parts(
    scheme: Seq<char>,
    user: Seq<char>,
    host: Seq<char>,
    port: Seq<char>,
    path: Seq<char>,
    source: Seq<char>,
    kind: Seq<char>,
)
    requires
        are_address_parts(scheme, user, host, port, path),
    ensures
        request_from_urls(
            address_of(scheme, user, host, port, path),
            source,
            kind,
        ) matches Some(r) && {
            &&& r.hostname == lower(host)
            &&& r.address == address_of(lower(scheme), user, lower(host), port, path)
            &&& r.hosted == lower(host) + port + path
            &&& schemes_agree(r, scheme)
            &&& r.request_type == if lower(scheme) == seq!['w', 's'] || lower(scheme) == seq![
                'w',
                's',
                's',
            ] {
                RequestType::Websocket
            } else {
                request_type_of(kind)
            }
            &&& match parse_url(source) {
                Some(url) => r.source_hostname == url.host && r.third_party is Some,
                None => r.source_hostname.len() == 0 && r.third_party is None,
            }
        },
        request_from_url(address_of(scheme, user, host, port, path)) matches Some(r) && {
            &&& r.hostname == lower(host)
            &&& r.address == address_of(lower(scheme), user, lower(host), port, path)
            &&& r.hosted == lower(host) + port + path
            &&& schemes_agree(r, scheme)
            &&& r.source_hostname.len() == 0 && r.third_party is None
        },
{
    let s = address_of(scheme, user, host, port, path);
    addresses_are_taken_apart(scheme, user, host, port, path);
    let url = parse_url(s)->0;
    reveal_strlit("://");
    reveal_strlit("http");
    reveal_strlit("https");
    reveal_strlit("ws");
    reveal_strlit("wss");
    assert("http"@ =~= seq!['h', 't', 't', 'p']);
    assert("https"@ =~= seq!['h', 't', 't', 'p', 's']);
    assert("ws"@ =~= seq!['w', 's']);
    assert("wss"@ =~= seq!['w', 's', 's']);
    assert(url.address() =~= address_of(lower(scheme), user, lower(host), port, path));
    assert(url.hosted() =~= lower(host) + port + path);
    assert(lower(scheme).len() == scheme.len());
}

/// A request leaves the domain of its source if and only if the two host names are
/// registered under different domains; it never does where they are one, and a request
/// leaves if and only if one the other way does.
pub proof fn requests_that_leave_their_source(url: Seq<char>, source: Seq<char>, kind: Seq<char>)
    requires
        parse_url(url) is Some,
        parse_url(source) is Some,
    ensures
        ({
            let a = request_from_urls(url, source, kind)->0;
            let b = request_from_urls(source, url, kind)->0;
            &&& a.third_party is Some
            &&& a.third_party == b.third_party
            &&& a.hostname == b.source_hostname && a.source_hostname == b.hostname
            &&& a.hostname == a.source_hostname ==> a.third_party == Some(false)
            &&& root_domain(a.hostname) is Some && root_domain(a.source_hostname) is Some
                ==> a.third_party == Some(root_domain(a.hostname) != root_domain(a.source_hostname))
            &&& root_domain(a.hostname) is None && root_domain(a.source_hostname) is None
                ==> a.third_party == Some(a.hostname != a.source_hostname)
            &&& root_domain(a.hostname) is None ==> (root_domain(a.source_hostname) matches Some(
                domain,
            ) ==> a.third_party == Some(a.hostname != domain))
            &&& root_domain(a.source_hostname) is None ==> (root_domain(
                a.hostname,
            ) matches Some(domain) ==> a.third_party == Some(a.source_hostname != domain))
        }),
{
}

/// The request of host names that the caller has found has these, and knows what the
/// caller says of the parties; where the caller says nothing, it is known if the source is.
pub proof fn requests_of_host_names(
    scheme: Seq<char>,
    rest: Seq<char>,
    hostname: Seq<char>,
    source: Seq<char>,
    kind: Seq<char>,
    told: bool,
)
    requires
        is_scheme_text(scheme),
    ensures
        ({
            let url = scheme + seq![':'] + rest;
            let r = request_from_hostnames(url, hostname, source, kind, Some(told));
            let s = request_from_hostnames(url, hostname, source, kind, None);
            &&& r.hostname == hostname && r.source_hostname == source && r.address == url
            &&& r.third_party == Some(told)
            &&& source.len() == 0 ==> s.third_party is None
            &&& source.len() > 0 && source == hostname ==> s.third_party == Some(false)
            &&& schemes_agree(r, scheme)
            &&& schemes_agree(s, scheme)
        }),
{
    let url = scheme + seq![':'] + rest;
    let n = scheme.len() as int;
    assert(url[n] == ':');
    url.index_of_first_ensures(':');
    assert(url.contains(':'));
    let k = url.index_of_first(':')->0;
    if k < n {
        assert(scheme[k] == ':');
        lemma_scheme_char(scheme[k]);
    }
    if k > n {
        assert(url[n] != ':');
    }
    assert(lower(url).take(n) =~= lower(scheme));
    reveal_strlit("http");
    reveal_strlit("https");
    reveal_strlit("ws");
    reveal_strlit("wss");
    assert("http"@ =~= seq!['h', 't', 't', 'p']);
    assert("https"@ =~= seq!['h', 't', 't', 'p', 's']);
    assert("ws"@ =~= seq!['w', 's']);
    assert("wss"@ =~= seq!['w', 's', 's']);
    assert(lower(scheme).len() == scheme.len());
}

/// What starts at the host name in an address is the host name and all that follows its
/// first occurrence.
pub proof fn addresses_from_the_host_on(before: Seq<char>, hostname: Seq<char>, after: Seq<char>)
    requires
        hostname == lower(hostname),
        hostname.len() > 0,
        forall|i: int|
            0 <= i < before.len() ==> !hostname.is_prefix_of(
                #[trigger] lower(before + hostname + after).skip(i),
            ),
    ensures
        hosted_at(before + hostname + after, hostname) == hostname + after,
{
    let url = before + hostname + after;
    let n = before.len() as int;
    let low = lower(url);
    lemma_find_text_from(low, hostname, 0);
    assert(low.subrange(n, n + hostname.len()) =~= lower(hostname));
    assert(occurs_at(low, hostname, n));
    let i = find_text(low, hostname)->0;
    if i < n {
        assert(occurs_at(low, hostname, i));
        assert(low.skip(i).subrange(0, hostname.len() as int) =~= low.subrange(
            i,
            i + hostname.len(),
        ));
        assert(hostname.is_prefix_of(low.skip(i)));
    }
    assert(url.skip(n + hostname.len()) =~= after);
}

/// A name stands for a kind of request.
pub open spec fn kind_is_named(name: Seq<char>, kind: RequestType) -> bool {
    ||| kind is Ping && (name == "beacon"@ || name == "ping"@)
    ||| kind is Csp && name == "csp_report"@
    ||| kind is Document && (name == "document"@ || name == "main_frame"@)
    ||| kind is Font && name == "font"@
    ||| kind is Image && (name == "image"@ || name == "imageset"@)
    ||| kind is Media && name == "media"@
    ||| kind is Object && (name == "object"@ || name == "object_subrequest"@)
    ||| kind is Script && name == "script"@
    ||| kind is Stylesheet && name == "stylesheet"@
    ||| kind is Subdocument && (name == "sub_frame"@ || name == "subdocument"@)
    ||| kind is Websocket && name == "websocket"@
    ||| kind is Xmlhttprequest && (name == "xhr"@ || name == "xmlhttprequest"@)
}

proof fn lemma_more_names()
    ensures
        "csp_report"@.len() == 10 && "csp_report"@[0] == 'c',
        "main_frame"@.len() == 10 && "main_frame"@[0] == 'm',
        "imageset"@.len() == 8 && "imageset"@[0] == 'i',
        "object_subrequest"@.len() == 17,
        "sub_frame"@.len() == 9 && "sub_frame"@[0] == 's',
        "stylesheet"@[0] == 's',
        "document"@[0] == 'd',
        "websocket"@[0] == 'w',
{
    reveal_strlit("csp_report");
    reveal_strlit("main_frame");
    reveal_strlit("imageset");
    reveal_strlit("object_subrequest");
    reveal_strlit("sub_frame");
    reveal_strlit("stylesheet");
    reveal_strlit("document");
    reveal_strlit("websocket");
}

/// A name stands for the kind that is so named, and for none other; a name that stands for
/// none makes a request of no particular kind.
#[verifier::rlimit(60)]
pub proof fn kinds_of_requests(name: Seq<char>, kind: RequestType)
    ensures
        kind_is_named(name, kind) ==> request_type_of(name) == kind,
        !(kind is Other) && request_type_of(name) == kind ==> kind_is_named(name, kind),
{
    lemma_names_differ();
    lemma_more_names();
}

/// An option asks for the requests that are made under its name, where both stand for a
/// kind.
#[verifier::rlimit(60)]
pub proof fn options_ask_for_the_kinds_they_name(name: Seq<char>, kind: RequestType)
    requires
        names_kind(name, kind),
        name != "all"@ && name != "other"@,
        !(request_type_of(name) is Other),
    ensures
        request_type_of(name) == kind,
{
    lemma_names_differ();
    lemma_more_names();
}

/// An address without a host, or with one that holds another character than host names are
/// made of, is none.
pub proof fn other_hosts_make_no_address(scheme: Seq<char>, host: Seq<char>, path: Seq<char>)
    requires
        is_scheme_text(scheme),
        is_path_text(path),
        is_before_path(host),
        !host.contains('@') && !host.contains(':'),
        host.len() == 0 || (host[0] != '[' && exists|i: int|
            0 <= i < host.len() && !is_plain_char(#[trigger] host[i]) && (host[i] as u32) < 0x80),
        !is_space((scheme + seq![':', '/', '/'] + host + path).last()),
    ensures
        parse_url(scheme + seq![':', '/', '/'] + host + path) is None,
{
    let s = scheme + seq![':', '/', '/'] + host + path;
    let c = scheme.len() as int;
    lemma_scheme_char(scheme[0]);
    assert(s[0] == scheme[0]);
    lemma_trim(s);
    assert(s[c] == ':');
    s.index_of_first_ensures(':');
    assert(s.contains(':'));
    let k = s.index_of_first(':')->0;
    if k < c {
        assert(scheme[k] == ':');
        lemma_scheme_char(scheme[k]);
    }
    if k > c {
        assert(s[c] != ':');
    }
    assert(s.take(c) =~= scheme);
    let after = s.skip(c + 1);
    reveal_strlit("//");
    let rest = after.skip(2);
    assert(rest =~= host + path);
    assert forall|i: int| 0 <= i < host.len() implies !ends_authority(#[trigger] host[i]) by {
        assert(host.contains(host[i]));
    }
    lemma_authority_len(host, path);
    assert(rest.take(host.len() as int) =~= host);
    host.index_of_last_ensures('@');
    assert(host.skip(0) =~= host);
    host.index_of_first_ensures(':');
    assert(host_len(host) == host.len());
    assert(host.take(host.len() as int) =~= host);
    if host.len() > 0 {
        let i = choose|i: int|
            0 <= i < host.len() && !is_plain_char(#[trigger] host[i]) && (host[i] as u32) < 0x80;
        lemma_other_char(host[i]);
        assert(!is_host_text(host));
    }
    assert(host_name(host) is None);
}

proof fn lemma_other_char(c: char)
    requires
        !is_plain_char(c),
        (c as u32) < 0x80,
    ensures
        !crate::url_parser::is_host_char(c),
{
}

/// An address without a scheme counts as one under `https`. A request of host names that the
/// caller has found leaves the domain of its source, where nothing is said of it, if the two
/// are registered under different domains. Where the host name does not stand in the address,
/// what starts at it is the host name alone.
pub proof fn requests_without_a_scheme(
    url: Seq<char>,
    hostname: Seq<char>,
    source: Seq<char>,
    kind: Seq<char>,
)
    requires
        !url.contains(':'),
    ensures
        ({
            let r = request_from_hostnames(url, hostname, source, kind, None);
            &&& r.is_https && !r.is_http && r.is_supported
            &&& r.request_type == request_type_of(kind)
            &&& source.len() > 0 && root_domain(hostname) is Some && root_domain(source) is Some
                ==> r.third_party == Some(root_domain(hostname) != root_domain(source))
            &&& source.len() > 0 && root_domain(hostname) is None && root_domain(source) is None
                ==> r.third_party == Some(hostname != source)
            &&& (forall|i: int|
                0 <= i <= url.len() ==> !hostname.is_prefix_of(#[trigger] lower(url).skip(i)))
                ==> r.hosted == hostname
        }),
{
    url.index_of_first_ensures(':');
    reveal_strlit("http");
    reveal_strlit("https");
    reveal_strlit("ws");
    reveal_strlit("wss");
    let low = lower(url);
    lemma_find_text_from(low, hostname, 0);
    if find_text(low, hostname) is Some && (forall|i: int|
        0 <= i <= url.len() ==> !hostname.is_prefix_of(#[trigger] low.skip(i))) {
        let i = find_text(low, hostname)->0;
        assert(occurs_at(low, hostname, i));
        assert(low.len() == url.len());
        assert(low.skip(i).subrange(0, hostname.len() as int) =~= low.subrange(
            i,
            i + hostname.len(),
        ));
        assert(hostname.is_prefix_of(low.skip(i)));
    }
}

/// A text with a character before its first `:` that no scheme holds is no address.
pub proof fn other_schemes_make_no_address(before: Seq<char>, after: Seq<char>, i: int)
    requires
        !before.contains(':'),
        0 <= i < before.len(),
        !is_space(before[0]),
        after.len() > 0 ==> !is_space(after.last()),
        !is_ascii_letter(before[i]) && !(0x30 <= before[i] as u32 <= 0x39) && before[i] != '+'
            && before[i] != '-' && before[i] != '.',
    ensures
        parse_url(before + seq![':'] + after) is None,
{
    let s = before + seq![':'] + after;
    let n = before.len() as int;
    assert(s[0] == before[0]);
    if after.len() > 0 {
        assert(s.last() == after.last());
    } else {
        assert(s.last() == ':');
    }
    lemma_trim(s);
    assert(s[n] == ':');
    s.index_of_first_ensures(':');
    assert(s.contains(':'));
    let k = s.index_of_first(':')->0;
    if k < n {
        assert(before[k] == ':');
    }
    if k > n {
        assert(s[n] != ':');
    }
    assert(s.take(n) =~= before);
    lemma_no_scheme_char(before[i]);
    if is_scheme(before) {
        assert(is_scheme_char(before[i]));
    }
}

proof fn lemma_no_scheme_char(c: char)
    requires
        !is_ascii_letter(c) && !(0x30 <= c as u32 <= 0x39) && c != '+' && c != '-' && c != '.',
    ensures
        !is_scheme_char(c),
{
}

/// A host name of ASCII characters is taken in lower case, any other in its ASCII form.
pub proof fn host_names_are_taken_in_ascii(s: Seq<char>)
    ensures
        (forall|i: int| 0 <= i < s.len() ==> (#[trigger] s[i]) as u32 <= 0x7f) ==> ascii_form(s)
            == Some(lower(s)),
        (exists|i: int| 0 <= i < s.len() && (#[trigger] s[i]) as u32 > 0x7f) ==> ascii_form(s)
            == ascii_domain(s),
{
    assert forall|i: int| 0 <= i < s.len() implies (s[i] <= '\u{7f}') == ((#[trigger] s[i]) as u32
        <= 0x7f) by {
        lemma_ascii_char(s[i]);
    }
}

proof fn lemma_ascii_char(c: char)
    ensures
        (c <= '\u{7f}') == (c as u32 <= 0x7f),
{
}

} // verus!

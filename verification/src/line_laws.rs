//! What the lines of a list stand for: which lines hold a rule, and to which addresses the
//! pattern of a line applies.

use vstd::prelude::*;

use crate::cosmetic_laws::is_plain_char;
use crate::filters::network::{pattern_matches, FilterMask, KindSet, NetworkRule};
use crate::filters::network_parser::{
    apply_option, apply_options, cased, default_mask, host_part_len, host_rule, hosted_pattern,
    is_plain_host, is_slashed, kept_line, no_options, options_start, parse_pattern, parse_rule,
    rule_with, NetworkFilterError, OptionsModel,
};
use crate::filters::pattern::{
    covers, covers_host, is_separator, label_start, names_host, names_labels,
};
use crate::lists::{
    filter_type_of, hosts_entry, is_local_name, parse_line, word_len, words, FilterFormat,
    FilterParseError, FilterType, Rule,
};
use crate::match_laws::{
    at_or_under, host_patterns_go_on_with_paths, host_patterns_name_hosts, is_host_char,
    is_host_text, is_literal, lemma_separator, literal_patterns,
};
use crate::option_laws::{
    are_options, bare, is_marked, is_pattern, lemma_rule_of_line, line_matches, with_options,
};
use crate::option_names::{lemma_important, lemma_match_case, lemma_names_differ};
use crate::request::RequestModel;
use crate::request_laws::is_name_text;
use crate::text::{
    find_text, is_space, join, lemma_find_text_from, lemma_trim, lower, occurs_at, trim, trim_start,
};
use crate::text_laws::{joined_texts_are_split, lower_case, white_space_is_trimmed};
use crate::url_parser::{ascii_form, host_name};

verus! {

/// White space around a line does not count.
pub proof fn white_space_around_lines(
    before: Seq<char>,
    line: Seq<char>,
    after: Seq<char>,
    debug: bool,
    format: FilterFormat,
)
    requires
        forall|i: int| 0 <= i < before.len() ==> is_space(#[trigger] before[i]),
        forall|i: int| 0 <= i < after.len() ==> is_space(#[trigger] after[i]),
        line.len() > 0 ==> !is_space(line[0]) && !is_space(line.last()),
    ensures
        parse_line(before + line + after, debug, format) == parse_line(line, debug, format),
{
    reveal(parse_line);
    white_space_is_trimmed(before, line, after);
    let none = Seq::<char>::empty();
    white_space_is_trimmed(none, line, none);
    assert(none + line + none =~= line);
}

/// A line holds a rule.
pub open spec fn holds_rule(line: Seq<char>, debug: bool, format: FilterFormat) -> bool {
    parse_line(line, debug, format) is Ok
}

/// A line that is empty, of one character, or a comment, which starts with `!` or with `#`
/// and white space, holds no rule; nor does the header of a list.
pub proof fn comments_hold_no_rule(line: Seq<char>, debug: bool)
    requires
        line.len() > 0 ==> !is_space(line[0]) && !is_space(line.last()),
        line.len() <= 1 || line[0] == '!' || (line[0] == '#' && is_space(line[1])) || seq![
            '[',
            'A',
            'd',
            'b',
            'l',
            'o',
            'c',
            'k',
        ].is_prefix_of(line),
    ensures
        !holds_rule(line, debug, FilterFormat::Standard),
{
    reveal(parse_line);
    lemma_trim(line);
    reveal_strlit("[Adblock");
    assert("[Adblock"@ =~= seq!['[', 'A', 'd', 'b', 'l', 'o', 'c', 'k']);
    if line.len() == 0 {
        let none = Seq::<char>::empty();
        white_space_is_trimmed(none, line, none);
        assert(none + line + none =~= line);
    }
}

/// A line that is none of these and holds no `#` and no `$$` is that of a network rule, and
/// so is one that starts with `|` or `@@|`, whatever it holds.
pub proof fn other_lines_are_network_rules(line: Seq<char>, debug: bool)
    requires
        line.len() > 1,
        !is_space(line[0]) && !is_space(line.last()),
        line[0] != '!',
        line[0] == '|' || seq!['@', '@', '|'].is_prefix_of(line) || (!line.contains('#')
            && line[0] != '[' && forall|i: int|
            0 <= i < line.len() ==> !seq!['$', '$'].is_prefix_of(#[trigger] line.skip(i))),
    ensures
        match parse_rule(line, debug) {
            Ok(rule) => parse_line(line, debug, FilterFormat::Standard) == Ok::<
                Rule,
                FilterParseError,
            >(Rule::Network(rule)),
            Err(_) => !holds_rule(line, debug, FilterFormat::Standard),
        },
{
    reveal(parse_line);
    lemma_trim(line);
    reveal_strlit("[Adblock");
    reveal_strlit("@@|");
    reveal_strlit("$$");
    assert("@@|"@ =~= seq!['@', '@', '|']);
    assert("$$"@ =~= seq!['$', '$']);
    if seq!['@', '@', '|'].is_prefix_of(line) {
        assert(line[0] == line.subrange(0, 3)[0]);
    }
    if "[Adblock"@.is_prefix_of(line) {
        assert(line[0] == line.subrange(0, 8)[0]);
    }
    if !(line[0] == '|') && !seq!['@', '@', '|'].is_prefix_of(line) {
        line.index_of_first_ensures('#');
        lemma_find_text_from(line, "$$"@, 0);
        if find_text(line, "$$"@) is Some {
            let i = find_text(line, "$$"@)->0;
            assert(occurs_at(line, "$$"@, i));
            assert(line.skip(i).subrange(0, 2) =~= line.subrange(i, i + 2));
            assert(seq!['$', '$'].is_prefix_of(line.skip(i)));
        }
        if line[0] == '#' {
            assert(line.contains('#'));
        }
    }
    assert(filter_type_of(line) == FilterType::Network);
}

/// A line with a pattern between its marks: `@@` for an exception, `|` at either end.
pub open spec fn marked_line(exception: bool, start: bool, p: Seq<char>, end: bool) -> Seq<char> {
    (if exception {
        seq!['@', '@']
    } else {
        Seq::<char>::empty()
    }) + (if start {
        seq!['|']
    } else {
        Seq::<char>::empty()
    }) + p + (if end {
        seq!['|']
    } else {
        Seq::<char>::empty()
    })
}

/// A pattern of characters that stand for themselves.
pub open spec fn is_plain_pattern(p: Seq<char>) -> bool {
    is_pattern_text(p) && is_literal(p)
}

/// A pattern, in which `*` and `^` may stand for others.
pub open spec fn is_pattern_text(p: Seq<char>) -> bool {
    &&& p.len() > 1
    &&& !p.contains('$') && !p.contains('|')
    &&& p[0] != '@' && p[0] != '/'
    &&& !is_space(p[0]) && !is_space(p.last())
}

/// Where a pattern has to stand in an address: anywhere, at the start, at the end, or at
/// both.
pub open spec fn stands_at(p: Seq<char>, start: bool, end: bool, address: Seq<char>) -> bool {
    if start && end {
        p == address
    } else if start {
        p.is_prefix_of(address)
    } else if end {
        p.is_suffix_of(address)
    } else {
        exists|i: int| 0 <= i <= address.len() && p.is_prefix_of(#[trigger] address.skip(i))
    }
}

proof fn lemma_lower_at(s: Seq<char>, i: int)
    requires
        0 <= i < s.len(),
    ensures
        lower(s).len() == s.len(),
        lower(s)[i] == s[i] || (0x61 <= lower(s)[i] as u32 <= 0x7a && 0x41 <= s[i] as u32 <= 0x5a),
        is_host_char(lower(s)[i]) == is_host_char(s[i]),
{
    lower_case(s, s, i);
    lemma_lower_char(s[i], lower(s)[i]);
}

proof fn lemma_lower_char(c: char, d: char)
    requires
        d == c || (0x41 <= c as u32 <= 0x5a && d as u32 == c as u32 + 32),
    ensures
        is_host_char(d) == is_host_char(c),
        d == c || (0x61 <= d as u32 <= 0x7a && 0x41 <= c as u32 <= 0x5a),
{
}

proof fn lemma_lower_literal(p: Seq<char>)
    requires
        is_literal(p),
    ensures
        is_literal(lower(p)),
{
    assert forall|c: char| (c == '*' || c == '^') implies !(#[trigger] lower(p).contains(c)) by {
        if lower(p).contains(c) {
            let i = choose|i: int| 0 <= i < lower(p).len() && lower(p)[i] == c;
            lemma_lower_at(p, i);
            assert(p[i] == c);
        }
    }
    assert(!lower(p).contains('*') && !lower(p).contains('^'));
}

/// The rule of a line without options.
proof fn lemma_unoptioned(line: Seq<char>, exception: bool, rest: Seq<char>, debug: bool)
    requires
        line == if exception {
            seq!['@', '@'] + rest
        } else {
            rest
        },
        line.len() > 0 && !is_space(line[0]) && !is_space(line.last()),
        !exception ==> !seq!['@', '@'].is_prefix_of(line),
        !rest.contains('$'),
    ensures
        parse_rule(line, debug) == rule_with(
            no_options(),
            exception,
            rest,
            kept_line(line, debug),
        ),
{
    lemma_trim(line);
    reveal_strlit("@@");
    assert("@@"@ =~= seq!['@', '@']);
    if exception {
        assert(line.subrange(0, 2) =~= seq!['@', '@']);
        assert(line.skip(2) =~= rest);
    }
    rest.index_of_last_ensures('$');
    assert(options_start(rest) is None);
}

/// What a pattern between its marks is read as.
proof fn lemma_marked_pattern(start: bool, p: Seq<char>, end: bool, mask: FilterMask)
    requires
        is_pattern_text(p),
    ensures
        ({
            let rest = marked_line(false, start, p, end);
            let anchored = FilterMask {
                hostname_anchor: false,
                left_anchor: start,
                right_anchor: end,
                ..mask
            };
            &&& !rest.contains('$')
            &&& parse_pattern(rest, mask) == Some(
                (
                    if mask.match_case {
                        p
                    } else {
                        lower(p)
                    },
                    anchored,
                ),
            )
        }),
{
    let rest = marked_line(false, start, p, end);
    reveal_strlit("|");
    reveal_strlit("||");
    assert("|"@ =~= seq!['|']);
    let n = p.len() as int;
    let k = if start {
        1int
    } else {
        0int
    };
    assert forall|i: int| 0 <= i < n implies #[trigger] p[i] == rest[k + i] && p[i] != '|' && p[i]
        != '$' by {
        assert(p.contains(p[i]));
    }
    assert(rest[k] == p[0]);
    if start {
        assert(rest[0] == '|');
        assert(rest.subrange(0, 1) =~= seq!['|']);
    } else {
        if "|"@.is_prefix_of(rest) {
            assert(rest[0] == rest.subrange(0, 1)[0]);
        }
    }
    if "||"@.is_prefix_of(rest) {
        assert(rest.subrange(0, 2)[0] == '|' && rest.subrange(0, 2)[1] == '|');
        assert(rest[0] == '|' && rest[1] == '|');
    }
    assert(!is_slashed(rest));
    let inner = if start {
        rest.skip(1)
    } else {
        rest
    };
    assert(inner =~= p + (if end {
        seq!['|']
    } else {
        Seq::<char>::empty()
    }));
    if end {
        assert(inner.subrange(inner.len() - 1, inner.len() as int) =~= seq!['|']);
        assert(inner.drop_last() =~= p);
    } else {
        assert(inner =~= p);
        if "|"@.is_suffix_of(inner) {
            assert(inner.subrange(n - 1, n)[0] == '|');
            assert(p[n - 1] == '|');
        }
    }
    if rest.contains('$') {
        let i = choose|i: int| 0 <= i < rest.len() && rest[i] == '$';
        if k <= i < k + n {
            assert(p[i - k] == rest[k + (i - k)]);
        }
    }
}

/// A rule without domains, parties and schemes of its own admits every request of its kinds.
proof fn lemma_admits_all(rule: NetworkRule, request: RequestModel)
    requires
        rule.patterns.len() == 1,
        rule.domains.len() == 0,
        rule.not_domains.len() == 0,
        rule.mask.http && rule.mask.https && rule.mask.third_party && rule.mask.first_party,
    ensures
        rule.matches(request) == (rule.mask.allows(request.request_type) && pattern_matches(
            rule.mask,
            rule.patterns[0],
            request,
        )),
{
    if rule.mask.allows(request.request_type) && pattern_matches(
        rule.mask,
        rule.patterns[0],
        request,
    ) {
        assert(rule.admits(request));
    }
}

/// A line applies to an address that its pattern covers: from some place on, behind a `|`
/// from the start, before a `|` up to the end. Letter case does not count. So it is for
/// exceptions.
pub proof fn patterns_cover_addresses(
    exception: bool,
    start: bool,
    p: Seq<char>,
    end: bool,
    debug: bool,
    request: RequestModel,
)
    requires
        is_pattern_text(p),
        !(request.request_type is Document),
        !(request.request_type is Csp),
    ensures
        line_matches(marked_line(exception, start, p, end), debug, request) == if start {
            covers(lower(p), lower(request.address), end)
        } else {
            exists|i: int|
                0 <= i <= request.address.len() && #[trigger] covers(
                    lower(p),
                    lower(request.address).skip(i),
                    end,
                )
        },
{
    let line = marked_line(exception, start, p, end);
    let rest = marked_line(false, start, p, end);
    lemma_marked_pattern(start, p, end, default_mask());
    lemma_line_of_marks(exception, start, p, end);
    assert(line =~= if exception {
        seq!['@', '@'] + rest
    } else {
        rest
    });
    lemma_unoptioned(line, exception, rest, debug);
    lemma_cover_rule(exception, start, p, end, kept_line(line, debug), request);
}

proof fn lemma_cover_rule(
    exception: bool,
    start: bool,
    p: Seq<char>,
    end: bool,
    l: Option<Seq<char>>,
    request: RequestModel,
)
    requires
        is_pattern_text(p),
        !(request.request_type is Document),
        !(request.request_type is Csp),
    ensures
        rule_with(no_options(), exception, marked_line(false, start, p, end), l) matches Ok(r)
            && r.matches(request) == if start {
            covers(lower(p), lower(request.address), end)
        } else {
            exists|i: int|
                0 <= i <= request.address.len() && #[trigger] covers(
                    lower(p),
                    lower(request.address).skip(i),
                    end,
                )
        },
{
    let rest = marked_line(false, start, p, end);
    let m = FilterMask { exception, ..no_options().mask };
    lemma_marked_pattern(start, p, end, m);
    let r = rule_with(no_options(), exception, rest, l)->Ok_0;
    assert(r.patterns =~= seq![lower(p)]);
    assert(r.mask.kinds == KindSet::uniform(true, false));
    lemma_admits_all(r, request);
    assert(lower(request.address).len() == request.address.len());
}

/// A line applies to an address in which its pattern stands: anywhere, behind a `|` at the
/// start, before a `|` at the end. Letter case does not count. So it is for exceptions.
pub proof fn patterns_stand_in_addresses(
    exception: bool,
    start: bool,
    p: Seq<char>,
    end: bool,
    debug: bool,
    request: RequestModel,
)
    requires
        is_plain_pattern(p),
        !(request.request_type is Document),
        !(request.request_type is Csp),
    ensures
        line_matches(marked_line(exception, start, p, end), debug, request) == stands_at(
            lower(p),
            start,
            end,
            lower(request.address),
        ),
{
    patterns_cover_addresses(exception, start, p, end, debug, request);
    lemma_lower_literal(p);
    literal_patterns(lower(p), lower(request.address));
    assert(lower(request.address).len() == request.address.len());
}

/// A line for a host: `||`, the host, and `^` where it is for the whole host.
pub open spec fn host_line(exception: bool, host: Seq<char>, caret: bool) -> Seq<char> {
    (if exception {
        seq!['@', '@']
    } else {
        Seq::<char>::empty()
    }) + seq!['|', '|'] + host + (if caret {
        seq!['^']
    } else {
        Seq::<char>::empty()
    })
}

proof fn lemma_name_char_of(s: Seq<char>, i: int)
    requires
        is_name_text(s),
        0 <= i < s.len(),
    ensures
        is_host_char(s[i]) && !is_separator(s[i]),
        s[i] <= '\u{7f}' && s[i] != '*' && s[i] != '$' && s[i] != '|' && s[i] != '@' && s[i] != '/',
        !is_space(s[i]),
{
    lemma_separator(s[i]);
    lemma_plain(s[i]);
}

proof fn lemma_plain(c: char)
    requires
        is_plain_char(c),
    ensures
        is_host_char(c) || c == '*',
        c <= '\u{7f}' && c != '$' && c != '|' && c != '@' && c != '/',
        !is_space(c),
{
}

proof fn lemma_host_part(host: Seq<char>, rest: Seq<char>)
    requires
        forall|i: int| 0 <= i < host.len() ==> #[trigger] host[i] != '*' && !is_separator(host[i]),
        rest.len() > 0 ==> rest[0] == '*' || is_separator(rest[0]),
    ensures
        host_part_len(host + rest) == host.len(),
    decreases host.len(),
{
    let all = host + rest;
    if host.len() == 0 {
        assert(all =~= rest);
    } else {
        assert(all[0] == host[0]);
        assert(all.drop_first() =~= host.drop_first() + rest);
        assert forall|i: int| 0 <= i < host.drop_first().len() implies #[trigger] host.drop_first()[i]
            != '*' && !is_separator(host.drop_first()[i]) by {
            assert(host.drop_first()[i] == host[i + 1]);
        }
        lemma_host_part(host.drop_first(), rest);
    }
}

proof fn lemma_host_pattern(host: Seq<char>, caret: bool, mask: FilterMask)
    requires
        is_name_text(host),
    ensures
        ({
            let rest = host_line(false, host, caret);
            let end = if caret {
                seq!['^']
            } else {
                Seq::<char>::empty()
            };
            let anchored = FilterMask {
                hostname_anchor: true,
                left_anchor: false,
                right_anchor: false,
                ..mask
            };
            &&& !rest.contains('$')
            &&& parse_pattern(rest, mask) == Some((lower(host) + end, anchored))
        }),
{
    let rest = host_line(false, host, caret);
    let end = if caret {
        seq!['^']
    } else {
        Seq::<char>::empty()
    };
    let body = host + end;
    let n = host.len() as int;
    reveal_strlit("|");
    reveal_strlit("||");
    assert("||"@ =~= seq!['|', '|']);
    assert(rest.subrange(0, 2) =~= seq!['|', '|']);
    assert(rest.skip(2) =~= body);
    assert(rest[0] == '|');
    assert(!is_slashed(rest));
    lemma_name_char_of(host, n - 1);
    if "|"@.is_suffix_of(body) {
        assert(body.subrange(body.len() - 1, body.len() as int)[0] == '|');
        assert(body.last() == '|');
    }
    assert forall|i: int| 0 <= i < n implies #[trigger] host[i] != '*' && !is_separator(host[i])
        && host[i] <= '\u{7f}' && host[i] != '$' by {
        lemma_name_char_of(host, i);
    }
    if caret {
        lemma_separator('^');
    }
    lemma_host_part(host, end);
    assert(body.take(n) =~= host);
    assert(body.skip(n) =~= end);
    assert(ascii_form(host) == Some(lower(host)));
    assert(cased(end, mask.match_case) =~= end);
    assert(hosted_pattern(body, mask.match_case) == Some(lower(host) + end));
    if rest.contains('$') {
        let i = choose|i: int| 0 <= i < rest.len() && rest[i] == '$';
        if 2 <= i < 2 + n {
            assert(rest[i] == host[i - 2]);
        }
    }
}

/// The host name of a request is in lower case and stands before what its address goes on
/// with, which is no part of a host name.
pub open spec fn has_host(request: RequestModel, tail: Seq<char>) -> bool {
    &&& request.hosted == request.hostname + tail
    &&& request.hostname == lower(request.hostname)
    &&& is_host_text(request.hostname)
    &&& tail.len() > 0 ==> !is_host_char(tail[0])
}

proof fn lemma_host_rule(rule: NetworkRule, host: Seq<char>, request: RequestModel, tail: Seq<char>)
    requires
        is_name_text(host),
        has_host(request, tail),
        rule.patterns == seq![lower(host) + seq!['^']],
        rule.mask.hostname_anchor && !rule.mask.right_anchor && !rule.mask.regex
            && !rule.mask.match_case,
    ensures
        pattern_matches(rule.mask, rule.patterns[0], request) == at_or_under(
            request.hostname,
            lower(host),
        ),
{
    let low = lower(host);
    assert forall|i: int| 0 <= i < low.len() implies is_host_char(#[trigger] low[i]) by {
        lemma_lower_at(host, i);
        lemma_name_char_of(host, i);
    }
    let t = lower(tail);
    if tail.len() > 0 {
        lemma_lower_at(tail, 0);
    }
    assert(lower(request.hosted) =~= request.hostname + t) by {
        if request.hostname.len() > 0 {
            lower_case(request.hostname, tail, 0);
        } else {
            assert(request.hosted =~= tail);
        }
    }
    lower_case(host, host, 0);
    host_patterns_name_hosts(low, request.hostname, t);
}

/// A line `||host^` applies to the requests for the host and for those under it, documents
/// too, and to no others. So it is for exceptions.
pub proof fn host_lines_name_hosts(
    exception: bool,
    host: Seq<char>,
    debug: bool,
    request: RequestModel,
    tail: Seq<char>,
)
    requires
        is_name_text(host),
        has_host(request, tail),
        !(request.request_type is Csp),
    ensures
        line_matches(host_line(exception, host, true), debug, request) == at_or_under(
            request.hostname,
            lower(host),
        ),
{
    let line = host_line(exception, host, true);
    let rest = host_line(false, host, true);
    let m = FilterMask { exception, ..default_mask() };
    lemma_host_pattern(host, true, m);
    assert(line =~= if exception {
        seq!['@', '@'] + rest
    } else {
        rest
    });
    assert(line.last() == '^');
    if !exception && seq!['@', '@'].is_prefix_of(line) {
        assert(line[0] == line.subrange(0, 2)[0]);
    }
    lemma_unoptioned(line, exception, rest, debug);
    let r = parse_rule(line, debug)->Ok_0;
    let p = lower(host) + seq!['^'];
    assert(r.patterns =~= seq![p]);
    assert(is_plain_host(p, FilterMask { hostname_anchor: true, ..m })) by {
        assert(p.drop_last() =~= lower(host));
        assert forall|i: int| 0 <= i < lower(host).len() implies #[trigger] lower(host)[i] != '*'
            && !is_separator(lower(host)[i]) by {
            lemma_lower_at(host, i);
            lemma_name_char_of(host, i);
            lemma_separator(lower(host)[i]);
        }
        assert(lower(host).len() == host.len()) by {
            lower_case(host, host, 0);
        }
    }
    assert(r.mask.kinds == KindSet::uniform(true, true));
    lemma_admits_all(r, request);
    lemma_host_rule(r, host, request, tail);
}

/// A line `||host` applies to the requests for a host name with labels that read as the
/// line says.
pub proof fn host_lines_name_labels(
    exception: bool,
    host: Seq<char>,
    debug: bool,
    request: RequestModel,
)
    requires
        is_name_text(host),
        !(request.request_type is Csp),
        !(request.request_type is Document),
    ensures
        line_matches(host_line(exception, host, false), debug, request) <==> exists|k: int|
            has_labels(request.hostname, lower(host), k),
{
    let line = host_line(exception, host, false);
    let rest = host_line(false, host, false);
    let m = FilterMask { exception, ..default_mask() };
    let low = lower(host);
    lemma_host_pattern(host, false, m);
    assert(line =~= if exception {
        seq!['@', '@'] + rest
    } else {
        rest
    });
    assert(line.last() == host.last());
    lemma_name_char_of(host, host.len() - 1);
    if !exception && seq!['@', '@'].is_prefix_of(line) {
        assert(line[0] == line.subrange(0, 2)[0]);
    }
    lemma_unoptioned(line, exception, rest, debug);
    let r = parse_rule(line, debug)->Ok_0;
    lower_case(host, host, 0);
    assert(low + Seq::<char>::empty() =~= low);
    assert(r.patterns =~= seq![low]);
    assert forall|i: int| 0 <= i < low.len() implies #[trigger] low[i] != '*' && !is_separator(
        low[i],
    ) by {
        lemma_lower_at(host, i);
        lemma_name_char_of(host, i);
        lemma_separator(low[i]);
    }
    assert(names_host(low));
    assert(r.mask.kinds.has(request.request_type)) by {
        lemma_separator('^');
    }
    lemma_admits_all(r, request);
    let name = request.hostname;
    let hosted = lower(request.hosted);
    if covers_host(low, name, hosted, false) {
        let k = choose|k: int| #[trigger]
            label_start(name, k) && names_labels(low, name, k, false);
        assert(has_labels(name, low, k));
    }
    if exists|k: int| has_labels(name, low, k) {
        let k = choose|k: int| has_labels(name, low, k);
        assert(label_start(name, k));
        assert(names_labels(low, name, k, false));
    }
}

/// A text stands for whole labels of a host name from a place on.
pub open spec fn has_labels(host: Seq<char>, text: Seq<char>, k: int) -> bool {
    &&& 0 <= k && k + text.len() <= host.len()
    &&& host.subrange(k, k + text.len()) == text
    &&& k == 0 || host[k - 1] == '.'
    &&& k + text.len() == host.len() || text.last() == '.' || host[k + text.len()] == '.'
}

/// A text without white space and `#`.
pub open spec fn is_word(s: Seq<char>) -> bool {
    &&& s.len() > 0
    &&& forall|i: int| 0 <= i < s.len() ==> !is_space(#[trigger] s[i]) && s[i] != '#'
}

/// White space alone.
pub open spec fn is_gap(s: Seq<char>) -> bool {
    forall|i: int| 0 <= i < s.len() ==> is_space(#[trigger] s[i])
}

proof fn lemma_word(w: Seq<char>, rest: Seq<char>)
    requires
        forall|i: int| 0 <= i < w.len() ==> !is_space(#[trigger] w[i]),
        rest.len() > 0 ==> is_space(rest[0]),
    ensures
        word_len(w + rest) == w.len(),
    decreases w.len(),
{
    let all = w + rest;
    if w.len() == 0 {
        assert(all =~= rest);
    } else {
        assert(all[0] == w[0]);
        assert(all.drop_first() =~= w.drop_first() + rest);
        assert forall|i: int| 0 <= i < w.drop_first().len() implies !is_space(
            #[trigger] w.drop_first()[i],
        ) by {
            assert(w.drop_first()[i] == w[i + 1]);
        }
        lemma_word(w.drop_first(), rest);
    }
}

proof fn lemma_gap(gap: Seq<char>, s: Seq<char>)
    requires
        is_gap(gap),
        s.len() > 0 ==> !is_space(s[0]),
    ensures
        trim_start(gap + s) == s,
    decreases gap.len(),
{
    let all = gap + s;
    if gap.len() == 0 {
        assert(all =~= s);
    } else {
        assert(all[0] == gap[0]);
        assert(all.drop_first() =~= gap.drop_first() + s);
        assert forall|i: int| 0 <= i < gap.drop_first().len() implies is_space(
            #[trigger] gap.drop_first()[i],
        ) by {
            assert(gap.drop_first()[i] == gap[i + 1]);
        }
        lemma_gap(gap.drop_first(), s);
    }
}

proof fn lemma_first_word(before: Seq<char>, w: Seq<char>, rest: Seq<char>)
    requires
        is_gap(before),
        is_word(w),
        rest.len() > 0 ==> is_space(rest[0]),
    ensures
        words(before + w + rest) == seq![w] + words(rest),
{
    let s = before + w + rest;
    let t = w + rest;
    assert(s =~= before + t);
    assert(t[0] == w[0]);
    lemma_gap(before, t);
    lemma_word(w, rest);
    assert(t.take(w.len() as int) =~= w);
    assert(t.skip(w.len() as int) =~= rest);
}

proof fn lemma_no_word(gap: Seq<char>)
    requires
        is_gap(gap),
    ensures
        words(gap) == Seq::<Seq<char>>::empty(),
{
    let none = Seq::<char>::empty();
    lemma_gap(gap, none);
    assert(gap + none =~= gap);
}

/// The name of the machine itself in a hosts file.
pub open spec fn is_machine_name(name: Seq<char>) -> bool {
    ||| name == "0.0.0.0"@ || name == "127.0.0.1"@ || name == "255.255.255.255"@
    ||| name == "broadcasthost"@ || name == "localhost"@ || name == "localhost.localdomain"@
    ||| name == "local"@ || name == "ip6-localhost"@ || name == "ip6-loopback"@
    ||| name == "ip6-localnet"@ || name == "ip6-mcastprefix"@ || name == "ip6-allnodes"@
    ||| name == "ip6-allrouters"@ || name == "ip6-allhosts"@ || name == "::1"@
    ||| name == "fe80::1%lo0"@
}

/// A line of a hosts file: an address and white space, or neither, a host name, and white
/// space and a comment, or neither.
pub open spec fn hosts_line(
    address: Seq<char>,
    gap: Seq<char>,
    host: Seq<char>,
    trail: Seq<char>,
    comment: Seq<char>,
) -> Seq<char> {
    address + gap + host + trail + comment
}

/// The parts of a line of a hosts file.
pub open spec fn are_hosts_parts(
    address: Seq<char>,
    gap: Seq<char>,
    host: Seq<char>,
    trail: Seq<char>,
    comment: Seq<char>,
) -> bool {
    &&& address.len() == 0 || is_word(address)
    &&& is_gap(gap) && (address.len() == 0 <==> gap.len() == 0)
    &&& is_word(host)
    &&& is_gap(trail) && (comment.len() == 0 ==> trail.len() == 0)
    &&& comment.len() > 0 ==> comment[0] == '#' && !is_space(comment.last())
    &&& (address + host)[0] != '!'
}

proof fn lemma_hosts_entry(
    address: Seq<char>,
    gap: Seq<char>,
    host: Seq<char>,
    trail: Seq<char>,
    comment: Seq<char>,
)
    requires
        are_hosts_parts(address, gap, host, trail, comment),
    ensures
        ({
            let line = hosts_line(address, gap, host, trail, comment);
            &&& trim(line) == line
            &&& line.len() > 0
            &&& hosts_entry(line) == if is_machine_name(host) {
                None
            } else {
                Some(host)
            }
        }),
{
    let line = hosts_line(address, gap, host, trail, comment);
    let text = address + gap + host + trail;
    let n = text.len() as int;
    assert(!is_space(host[host.len() - 1]));
    assert(!is_space(host[0]));
    if address.len() > 0 {
        assert(line[0] == address[0]);
        assert(!is_space(address[0]));
        assert((address + host)[0] == address[0]);
    } else {
        assert(line[0] == host[0]);
        assert((address + host)[0] == host[0]);
    }
    if comment.len() > 0 {
        assert(line.last() == comment.last());
    } else {
        assert(line.last() == host.last());
    }
    lemma_trim(line);
    assert forall|i: int| 0 <= i < n implies #[trigger] text[i] != '#' by {
        if i < address.len() {
            assert(text[i] == address[i]);
        } else if i < address.len() + gap.len() {
            assert(text[i] == gap[i - address.len()]);
            assert(is_space(gap[i - address.len()]));
        } else if i < address.len() + gap.len() + host.len() {
            assert(text[i] == host[i - address.len() - gap.len()]);
        } else {
            assert(text[i] == trail[i - address.len() - gap.len() - host.len()]);
            assert(is_space(trail[i - address.len() - gap.len() - host.len()]));
        }
    }
    line.index_of_first_ensures('#');
    if comment.len() > 0 {
        assert(line[n] == '#');
        assert(line.contains('#'));
        let k = line.index_of_first('#')->0;
        if k < n {
            assert(text[k] == '#');
        }
        assert(line.take(n) =~= text);
    } else {
        assert(line =~= text);
        if line.contains('#') {
            let k = choose|k: int| 0 <= k < line.len() && line[k] == '#';
            assert(text[k] == '#');
        }
    }
    let none = Seq::<char>::empty();
    lemma_no_word(trail);
    lemma_first_word(gap, host, trail);
    if address.len() > 0 {
        let rest = gap + host + trail;
        assert(rest[0] == gap[0]);
        assert(is_space(gap[0]));
        lemma_first_word(none, address, rest);
        assert(none + address + rest =~= text);
        assert(words(text) =~= seq![address, host]);
    } else {
        assert(text =~= gap + host + trail);
        assert(words(text) =~= seq![host]);
    }
    assert(is_local_name(host) == is_machine_name(host));
}

/// A line of a hosts file blocks the requests for its host and for those under it, and no
/// others, unless its host name is one of the machine itself: then it holds no rule.
pub proof fn hosts_lines_block_hosts(
    address: Seq<char>,
    gap: Seq<char>,
    host: Seq<char>,
    trail: Seq<char>,
    comment: Seq<char>,
    debug: bool,
    request: RequestModel,
    tail: Seq<char>,
)
    requires
        are_hosts_parts(address, gap, host, trail, comment),
        has_host(request, tail),
        !(request.request_type is Csp),
    ensures
        is_machine_name(host) ==> !holds_rule(
            hosts_line(address, gap, host, trail, comment),
            debug,
            FilterFormat::Hosts,
        ),
        is_name_text(host) && !is_machine_name(host) ==> (parse_line(
            hosts_line(address, gap, host, trail, comment),
            debug,
            FilterFormat::Hosts,
        ) matches Ok(Rule::Network(r)) && {
            &&& r.matches(request) == at_or_under(request.hostname, lower(host))
            &&& !r.mask.exception && !r.mask.important && r.tag is None && r.redirect is None
            &&& !r.mask.csp && !r.mask.generic_hide && !r.mask.bad_filter && !r.mask.redirect_only
        }),
{
    reveal(parse_line);
    lemma_hosts_entry(address, gap, host, trail, comment);
    if is_name_text(host) && !is_machine_name(host) {
        assert forall|i: int| 0 <= i < host.len() implies host[i] <= '\u{7f}'
            && crate::url_parser::is_host_char(#[trigger] host[i]) && host[i] != '[' by {
            lemma_name_char_of(host, i);
            lemma_host_char_of(host[i]);
        }
        assert(host[0] != '[');
        assert(host_name(host) == Some(lower(host)));
        let r = host_rule(host, debug)->Ok_0;
        reveal_strlit("^");
        assert("^"@ =~= seq!['^']);
        assert(r.patterns =~= seq![lower(host) + seq!['^']]);
        lemma_admits_all(r, request);
        lemma_host_rule(r, host, request, tail);
    }
}

proof fn lemma_host_char_of(c: char)
    requires
        is_host_char(c),
        c <= '\u{7f}',
    ensures
        c != '[',
        crate::url_parser::is_host_char(c) || c == '%',
{
    lemma_separator(c);
}

/// A line of a hosts file with more than two words holds no rule.
pub proof fn longer_hosts_lines_hold_no_rule(
    a: Seq<char>,
    gap: Seq<char>,
    b: Seq<char>,
    other: Seq<char>,
    c: Seq<char>,
    debug: bool,
)
    requires
        is_word(a) && is_word(b) && is_word(c),
        is_gap(gap) && gap.len() > 0,
        is_gap(other) && other.len() > 0,
    ensures
        !holds_rule(a + gap + b + other + c, debug, FilterFormat::Hosts),
{
    reveal(parse_line);
    let line = a + gap + b + other + c;
    let none = Seq::<char>::empty();
    assert(line[0] == a[0] && !is_space(a[0]));
    assert(line.last() == c[c.len() - 1] && !is_space(c[c.len() - 1]));
    lemma_trim(line);
    line.index_of_first_ensures('#');
    assert forall|i: int| 0 <= i < line.len() implies #[trigger] line[i] != '#' by {
        if i < a.len() {
            assert(line[i] == a[i]);
        } else if i < a.len() + gap.len() {
            assert(is_space(gap[i - a.len()]));
        } else if i < a.len() + gap.len() + b.len() {
            assert(line[i] == b[i - a.len() - gap.len()]);
        } else if i < a.len() + gap.len() + b.len() + other.len() {
            assert(is_space(other[i - a.len() - gap.len() - b.len()]));
        } else {
            assert(line[i] == c[i - a.len() - gap.len() - b.len() - other.len()]);
        }
    }
    let r1 = gap + b + other + c;
    let r2 = other + c;
    assert(is_space(gap[0]) && is_space(other[0]));
    lemma_first_word(none, a, r1);
    lemma_first_word(gap, b, r2);
    lemma_first_word(other, c, none);
    lemma_no_word(none);
    assert(none + a + r1 =~= line);
    assert(gap + b + r2 =~= r1);
    assert(other + c + none =~= r2);
    assert(words(line).len() == 3);
}

/// With the option `match-case` letter case counts: a line applies to an address in which
/// its pattern stands as it is written.
pub proof fn letter_case_counts_on_demand(
    exception: bool,
    start: bool,
    p: Seq<char>,
    end: bool,
    debug: bool,
    request: RequestModel,
)
    requires
        is_plain_pattern(p),
        !(request.request_type is Document),
        !(request.request_type is Csp),
    ensures
        line_matches(
            with_options(marked_line(exception, start, p, end), seq!["match-case"@]),
            debug,
            request,
        ) == stands_at(p, start, end, request.address),
{
    let line = marked_line(exception, start, p, end);
    let rest = marked_line(false, start, p, end);
    let options = seq!["match-case"@];
    let m = FilterMask { exception, match_case: true, ..default_mask() };
    lemma_marked_pattern(start, p, end, m);
    lemma_line_of_marks(exception, start, p, end);
    lemma_case_option();
    lemma_rule_of_line(line, options, debug);
    let l = kept_line(with_options(line, options), debug);
    assert(parse_rule(with_options(line, options), debug) == rule_with(
        with_case(),
        exception,
        rest,
        l,
    ));
    lemma_case_rule(exception, start, p, end, l, request);
}

/// Options that say nothing but that letter case counts.
spec fn with_case() -> OptionsModel {
    OptionsModel { mask: FilterMask { match_case: true, ..default_mask() }, ..no_options() }
}

proof fn lemma_case_option()
    ensures
        are_options(seq!["match-case"@]),
        apply_options(no_options(), seq!["match-case"@]) == Ok::<OptionsModel, NetworkFilterError>(
            with_case(),
        ),
{
    lemma_match_case();
    lemma_names_differ();
    let options = seq!["match-case"@];
    let none = Seq::<Seq<char>>::empty();
    let o = with_case();
    assert(options.drop_first() =~= none);
    assert(apply_options(o, options.drop_first()) == Ok::<OptionsModel, NetworkFilterError>(o));
    assert(apply_option(no_options(), options[0]) == Ok::<OptionsModel, NetworkFilterError>(o));
}

proof fn lemma_line_of_marks(exception: bool, start: bool, p: Seq<char>, end: bool)
    requires
        is_pattern_text(p),
        !marked_line(false, start, p, end).contains('$'),
    ensures
        is_pattern(marked_line(exception, start, p, end)),
        is_marked(marked_line(exception, start, p, end)) == exception,
        bare(marked_line(exception, start, p, end)) == marked_line(false, start, p, end),
{
    let line = marked_line(exception, start, p, end);
    let rest = marked_line(false, start, p, end);
    assert(line =~= if exception {
        seq!['@', '@'] + rest
    } else {
        rest
    });
    assert(line.last() == if end {
        '|'
    } else {
        p.last()
    });
    assert(line[0] == if exception {
        '@'
    } else if start {
        '|'
    } else {
        p[0]
    });
    if !exception && seq!['@', '@'].is_prefix_of(line) {
        assert(line[0] == line.subrange(0, 2)[0]);
    }
    if exception {
        assert(line.subrange(0, 2) =~= seq!['@', '@']);
        assert(line.skip(2) =~= rest);
    }
    if line.contains('$') {
        let i = choose|i: int| 0 <= i < line.len() && line[i] == '$';
        if exception {
            assert(rest[i - 2] == '$');
        } else {
            assert(rest[i] == '$');
        }
    }
}

proof fn lemma_case_rule(
    exception: bool,
    start: bool,
    p: Seq<char>,
    end: bool,
    l: Option<Seq<char>>,
    request: RequestModel,
)
    requires
        is_plain_pattern(p),
        !(request.request_type is Document),
        !(request.request_type is Csp),
    ensures
        rule_with(with_case(), exception, marked_line(false, start, p, end), l) matches Ok(r)
            && r.matches(request) == stands_at(p, start, end, request.address),
{
    let rest = marked_line(false, start, p, end);
    let m = FilterMask { exception, ..with_case().mask };
    lemma_marked_pattern(start, p, end, m);
    let r = rule_with(with_case(), exception, rest, l)->Ok_0;
    assert(r.patterns =~= seq![p]);
    assert(r.mask.kinds == KindSet::uniform(true, false));
    lemma_admits_all(r, request);
    literal_patterns(p, request.address);
}

/// A line `||host/path` applies to the requests for the host, and for those under it, whose
/// address goes on with the path. Letter case does not count.
pub proof fn host_lines_go_on_with_paths(
    exception: bool,
    host: Seq<char>,
    path: Seq<char>,
    debug: bool,
    request: RequestModel,
    tail: Seq<char>,
)
    requires
        is_name_text(host),
        path.len() > 0 && path[0] == '/' && is_literal(path),
        !path.contains('$') && !path.contains('|') && !is_space(path.last()),
        has_host(request, tail),
        !(request.request_type is Csp),
        !(request.request_type is Document),
    ensures
        line_matches(host_line(exception, host, false) + path, debug, request) == (at_or_under(
            request.hostname,
            lower(host),
        ) && lower(path).is_prefix_of(lower(tail))),
{
    let line = host_line(exception, host, false) + path;
    let rest = host_line(false, host, false) + path;
    let m = FilterMask { exception, ..default_mask() };
    lemma_path_pattern(host, path, m);
    assert(line =~= if exception {
        seq!['@', '@'] + rest
    } else {
        rest
    });
    assert(line.last() == path.last());
    if !exception && seq!['@', '@'].is_prefix_of(line) {
        assert(line[0] == line.subrange(0, 2)[0]);
    }
    lemma_unoptioned(line, exception, rest, debug);
    let r = parse_rule(line, debug)->Ok_0;
    let low = lower(host);
    let way = lower(path);
    assert(r.patterns =~= seq![low + way]);
    lower_case(host, host, 0);
    lower_case(path, path, 0);
    assert(r.mask.kinds.has(request.request_type));
    lemma_admits_all(r, request);
    assert forall|i: int| 0 <= i < low.len() implies is_host_char(#[trigger] low[i]) by {
        lemma_lower_at(host, i);
        lemma_name_char_of(host, i);
    }
    let t = lower(tail);
    if tail.len() > 0 {
        lemma_lower_at(tail, 0);
    }
    assert(lower(request.hosted) =~= request.hostname + t) by {
        if request.hostname.len() > 0 {
            lower_case(request.hostname, tail, 0);
        } else {
            assert(request.hosted =~= tail);
        }
    }
    host_patterns_go_on_with_paths(low, way, request.hostname, t, false);
    lemma_lower_literal(path);
    literal_patterns(way, t);
}

proof fn lemma_path_pattern(host: Seq<char>, path: Seq<char>, mask: FilterMask)
    requires
        is_name_text(host),
        !mask.match_case,
        path.len() > 0 && path[0] == '/',
        !path.contains('$') && !path.contains('|'),
    ensures
        ({
            let rest = host_line(false, host, false) + path;
            let anchored = FilterMask {
                hostname_anchor: true,
                left_anchor: false,
                right_anchor: false,
                ..mask
            };
            &&& !rest.contains('$')
            &&& parse_pattern(rest, mask) == Some((lower(host) + lower(path), anchored))
        }),
{
    let rest = host_line(false, host, false) + path;
    let body = host + path;
    let n = host.len() as int;
    reveal_strlit("|");
    reveal_strlit("||");
    assert("||"@ =~= seq!['|', '|']);
    assert(rest.subrange(0, 2) =~= seq!['|', '|']);
    assert(rest.skip(2) =~= body);
    assert(rest[0] == '|');
    assert(!is_slashed(rest));
    if "|"@.is_suffix_of(body) {
        assert(body.subrange(body.len() - 1, body.len() as int)[0] == '|');
        assert(path[path.len() - 1] == '|');
        assert(path.contains('|'));
    }
    assert forall|i: int| 0 <= i < n implies #[trigger] host[i] != '*' && !is_separator(host[i])
        && host[i] <= '\u{7f}' && host[i] != '$' by {
        lemma_name_char_of(host, i);
    }
    lemma_separator('/');
    lemma_host_part(host, path);
    assert(body.take(n) =~= host);
    assert(body.skip(n) =~= path);
    assert(ascii_form(host) == Some(lower(host)));
    assert(hosted_pattern(body, mask.match_case) == Some(lower(host) + lower(path)));
    if rest.contains('$') {
        let i = choose|i: int| 0 <= i < rest.len() && rest[i] == '$';
        if 2 <= i < 2 + n {
            assert(rest[i] == host[i - 2]);
        } else if i >= 2 + n {
            assert(path[i - 2 - n] == '$');
        }
    }
}

/// A line of an expression between slashes holds that as a regular expression, and every
/// character of it counts: none of them starts options.
pub proof fn expressions_stand_between_slashes(expression: Seq<char>, debug: bool)
    requires
        expression.len() > 0,
    ensures
        parse_rule(seq!['/'] + expression + seq!['/'], debug) matches Ok(r) && {
            &&& r.mask.regex
            &&& r.patterns == seq![expression]
            &&& !r.mask.exception && !r.mask.match_case
            &&& !r.mask.left_anchor && !r.mask.right_anchor && !r.mask.hostname_anchor
            &&& r.domains.len() == 0 && r.not_domains.len() == 0
            &&& r.tag is None && r.redirect is None && r.csp is None
        },
{
    let line = seq!['/'] + expression + seq!['/'];
    reveal_strlit("@@");
    lemma_trim(line);
    assert(line[0] == '/' && line.last() == '/');
    if "@@"@.is_prefix_of(line) {
        assert(line.subrange(0, 2)[0] == '@');
    }
    assert(is_slashed(line));
    assert(line.subrange(1, line.len() - 1) =~= expression);
}

/// Options start at the last `$` of a line; one before it belongs to the pattern.
pub proof fn options_start_at_the_last_dollar(p: Seq<char>, debug: bool)
    requires
        p.len() > 0,
        p[0] != '|' && p[0] != '@' && p[0] != '/' && !is_space(p[0]),
        p.last() != '|',
    ensures
        parse_rule(p + seq!['$'] + "important"@, debug) matches Ok(r) && {
            &&& r.patterns == seq![lower(p)]
            &&& r.mask.important
            &&& !r.mask.regex
            &&& !r.mask.left_anchor && !r.mask.right_anchor && !r.mask.hostname_anchor
        },
{
    let option = "important"@;
    let line = p + seq!['$'] + option;
    let n = p.len() as int;
    lemma_important();
    lemma_names_differ();
    lemma_trim(line);
    reveal_strlit("@@");
    reveal_strlit("|");
    reveal_strlit("||");
    assert(line[0] == p[0]);
    assert(line.last() == option.last());
    if "@@"@.is_prefix_of(line) {
        assert(line.subrange(0, 2)[0] == '@');
    }
    assert(line.last() != '/');
    line.index_of_last_ensures('$');
    assert(line[n] == '$');
    assert(line.contains('$'));
    let i = line.index_of_last('$')->0;
    if i < n {
        assert(line[n] != '$');
    }
    if i > n {
        assert(option[i - n - 1] == '$');
        assert(option.contains('$'));
    }
    assert(options_start(line) == Some(n + 1));
    assert(line.skip(n + 1) =~= option);
    assert(line.take(n) =~= p);
    let options = seq![option];
    joined_texts_are_split(options, ',');
    assert(options.drop_last() =~= Seq::<Seq<char>>::empty());
    assert(join(options, seq![',']) =~= option);
    let o = OptionsModel {
        mask: FilterMask { important: true, ..default_mask() },
        ..no_options()
    };
    assert(options.drop_first() =~= Seq::<Seq<char>>::empty());
    assert(apply_options(o, options.drop_first()) == Ok::<OptionsModel, NetworkFilterError>(o));
    assert(apply_option(no_options(), options[0]) == Ok::<OptionsModel, NetworkFilterError>(o));
    assert(apply_options(no_options(), options) == Ok::<OptionsModel, NetworkFilterError>(o));
    if "|"@.is_prefix_of(p) {
        assert(p.subrange(0, 1)[0] == '|');
    }
    if "||"@.is_prefix_of(p) {
        assert(p.subrange(0, 2)[0] == '|');
    }
    if "|"@.is_suffix_of(p) {
        assert(p.subrange(n - 1, n)[0] == '|');
    }
    assert(!is_slashed(p));
    assert(parse_pattern(p, o.mask) is Some);
}

/// A mark between hosts and a text that other blockers read in their own way.
pub open spec fn is_foreign_mark(mark: Seq<char>) -> bool {
    ||| mark == seq!['#', '?', '#'] || mark == seq!['#', '@', '?', '#']
    ||| mark == seq!['#', '$', '#'] || mark == seq!['#', '@', '$', '#']
    ||| mark == seq!['#', '%', '#'] || mark == seq!['#', '@', '%', '#']
}

/// A line with such a mark holds no rule, nor does one with `$$`.
pub proof fn foreign_lines_hold_no_rule(
    before: Seq<char>,
    mark: Seq<char>,
    after: Seq<char>,
    debug: bool,
)
    requires
        is_foreign_mark(mark) || mark == seq!['$', '$'],
        !before.contains('#'),
        before.len() > 0 ==> before[0] != '|' && !is_space(before[0]) && before[0] != '@',
        after.len() > 0 ==> !is_space(after.last()),
    ensures
        !holds_rule(before + mark + after, debug, FilterFormat::Standard),
{
    reveal(parse_line);
    let line = before + mark + after;
    if before.len() > 0 {
        assert(line[0] == before[0]);
    } else {
        assert(line[0] == mark[0]);
    }
    if after.len() > 0 {
        assert(line.last() == after.last());
    } else {
        assert(line.last() == mark.last());
    }
    lemma_trim(line);
    if mark == seq!['$', '$'] {
        lemma_dollars(before, after);
    } else {
        lemma_foreign_type(before, mark, after);
    }
}

proof fn lemma_dollars(before: Seq<char>, after: Seq<char>)
    requires
        before.len() > 0 ==> before[0] != '|' && before[0] != '@',
    ensures
        filter_type_of(before + seq!['$', '$'] + after) == FilterType::NotSupported,
{
    let line = before + seq!['$', '$'] + after;
    let n = before.len() as int;
    reveal_strlit("@@|");
    reveal_strlit("$$");
    if before.len() > 0 {
        assert(line[0] == before[0]);
    } else {
        assert(line[0] == '$');
    }
    if "@@|"@.is_prefix_of(line) {
        assert(line.subrange(0, 3)[0] == '@');
    }
    lemma_find_text_from(line, "$$"@, 0);
    assert(line.subrange(n, n + 2) =~= "$$"@);
    assert(occurs_at(line, "$$"@, n));
}

proof fn lemma_foreign_type(before: Seq<char>, mark: Seq<char>, after: Seq<char>)
    requires
        is_foreign_mark(mark),
        !before.contains('#'),
        before.len() > 0 ==> before[0] != '|' && before[0] != '@',
    ensures
        filter_type_of(before + mark + after) == FilterType::NotSupported,
{
    let line = before + mark + after;
    let n = before.len() as int;
    reveal_strlit("@@|");
    if before.len() > 0 {
        assert(line[0] == before[0]);
    } else {
        assert(line[0] == mark[0]);
    }
    if "@@|"@.is_prefix_of(line) {
        assert(line.subrange(0, 3)[0] == '@');
    }
    assert(line[n] == '#');
    line.index_of_first_ensures('#');
    assert(line.contains('#'));
    let k = line.index_of_first('#')->0;
    if k < n {
        assert(before[k] == '#');
    }
    if k > n {
        assert(line[n] != '#');
    }
    let rest = line.skip(n + 1);
    assert(rest =~= mark.skip(1) + after);
    lemma_foreign_rest(mark, rest, after);
}

proof fn lemma_foreign_rest(mark: Seq<char>, rest: Seq<char>, after: Seq<char>)
    requires
        is_foreign_mark(mark),
        rest == mark.skip(1) + after,
    ensures
        !"#"@.is_prefix_of(rest) && !"@#"@.is_prefix_of(rest),
        "?#"@.is_prefix_of(rest) || "@?#"@.is_prefix_of(rest) || "$#"@.is_prefix_of(rest)
            || "@$#"@.is_prefix_of(rest) || "%#"@.is_prefix_of(rest) || "@%#"@.is_prefix_of(rest),
{
    reveal_strlit("#");
    reveal_strlit("@#");
    reveal_strlit("?#");
    reveal_strlit("@?#");
    reveal_strlit("$#");
    reveal_strlit("@$#");
    reveal_strlit("%#");
    reveal_strlit("@%#");
    assert(rest[0] == mark[1] && rest[1] == mark[2]);
    if "#"@.is_prefix_of(rest) {
        assert(rest.subrange(0, 1)[0] == '#');
    }
    if "@#"@.is_prefix_of(rest) {
        assert(rest.subrange(0, 2)[0] == '@' && rest.subrange(0, 2)[1] == '#');
    }
    if mark.len() == 3 {
        let two = rest.subrange(0, 2);
        assert(two[0] == mark[1] && two[1] == mark[2]);
        if mark[1] == '?' {
            assert(two =~= "?#"@);
        } else if mark[1] == '$' {
            assert(two =~= "$#"@);
        } else {
            assert(two =~= "%#"@);
        }
    } else {
        let three = rest.subrange(0, 3);
        assert(three[0] == mark[1] && three[1] == mark[2] && three[2] == mark[3]);
        if mark[2] == '?' {
            assert(three =~= "@?#"@);
        } else if mark[2] == '$' {
            assert(three =~= "@$#"@);
        } else {
            assert(three =~= "@%#"@);
        }
    }
}

/// A line of a hosts file that starts with `#` or `!` holds no rule.
pub proof fn comments_in_hosts_files(line: Seq<char>, debug: bool)
    requires
        line.len() > 0,
        line[0] == '#' || line[0] == '!',
        !is_space(line.last()),
    ensures
        !holds_rule(line, debug, FilterFormat::Hosts),
{
    reveal(parse_line);
    lemma_trim(line);
    if line[0] == '#' {
        line.index_of_first_ensures('#');
        assert(line.contains('#'));
        let i = line.index_of_first('#')->0;
        assert(i == 0);
        assert(line.take(0) =~= Seq::empty());
        lemma_no_word(line.take(0));
    }
}

/// Lines that do not name a whole host, and make no exception, apply to no document: neither
/// those with a pattern, nor those with the labels of a host name, nor those with a path.
pub proof fn documents_are_for_whole_hosts(
    start: bool,
    p: Seq<char>,
    end: bool,
    host: Seq<char>,
    path: Seq<char>,
    debug: bool,
    request: RequestModel,
)
    requires
        is_pattern_text(p),
        is_name_text(host),
        path.len() > 0 && path[0] == '/' && is_literal(path),
        !path.contains('$') && !path.contains('|') && !is_space(path.last()),
        request.request_type is Document,
    ensures
        !line_matches(marked_line(false, start, p, end), debug, request),
        !line_matches(host_line(false, host, false), debug, request),
        !line_matches(host_line(false, host, false) + path, debug, request),
{
    let a = marked_line(false, start, p, end);
    lemma_marked_pattern(start, p, end, default_mask());
    lemma_line_of_marks(false, start, p, end);
    lemma_unoptioned(a, false, a, debug);
    lemma_no_document(a, kept_line(a, debug), request);
    let b = host_line(false, host, false);
    let n = host.len() as int;
    lemma_host_pattern(host, false, default_mask());
    lemma_name_char_of(host, n - 1);
    lemma_lower_at(host, n - 1);
    assert(b.last() == host.last());
    if seq!['@', '@'].is_prefix_of(b) {
        assert(b[0] == b.subrange(0, 2)[0]);
    }
    lemma_unoptioned(b, false, b, debug);
    let low = lower(host) + Seq::<char>::empty();
    assert(low.last() == lower(host)[n - 1]);
    assert(low.last() != '^') by {
        lemma_separator('^');
    }
    lemma_no_document(b, kept_line(b, debug), request);
    let c = b + path;
    let m = path.len() as int;
    lemma_path_pattern(host, path, default_mask());
    assert(c.last() == path.last());
    if seq!['@', '@'].is_prefix_of(c) {
        assert(c[0] == c.subrange(0, 2)[0]);
    }
    lemma_unoptioned(c, false, c, debug);
    lemma_lower_literal(path);
    lower_case(path, path, 0);
    let way = lower(host) + lower(path);
    assert(way.last() == lower(path)[m - 1]);
    assert(lower(path).contains(lower(path)[m - 1]));
    lemma_no_document(c, kept_line(c, debug), request);
}

proof fn lemma_no_document(rest: Seq<char>, l: Option<Seq<char>>, request: RequestModel)
    requires
        request.request_type is Document,
        parse_pattern(rest, default_mask()) matches Some(a) && (!a.1.hostname_anchor || a.0.last()
            != '^') && !a.1.exception,
    ensures
        rule_with(no_options(), false, rest, l) matches Ok(r) && !r.matches(request),
{
    let m = FilterMask { exception: false, ..no_options().mask };
    assert(m == default_mask());
    let a = parse_pattern(rest, m)->0;
    assert(!is_plain_host(a.0, a.1));
    let r = rule_with(no_options(), false, rest, l)->Ok_0;
    assert(r.mask.kinds == KindSet::uniform(true, false));
    assert(!r.mask.allows(request.request_type));
}

/// A rule shows the line that it is of, without the white space around it, where lines are
/// kept.
pub proof fn rules_show_their_lines(line: Seq<char>)
    ensures
        parse_rule(line, true) matches Ok(rule) ==> rule.shown() == trim(line) && rule.raw_line
            == Some(trim(line)),
        parse_rule(line, false) matches Ok(rule) ==> rule.raw_line is None,
{
}

} // verus!

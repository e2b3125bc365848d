//! What holds of the matching of rules: which sources, which addresses, which kinds
//! of request a rule applies to.

use vstd::prelude::*;

use crate::filters::network::{pattern_matches, within, FilterMask, KindSet, NetworkRule};
use crate::filters::pattern::{
    covers, covers_host, is_separator, label_start, lemma_wildcard, names_host, stands_in,
};
use crate::outside::regex_verdict;
use crate::request::{RequestModel, RequestType};
use crate::text::lower;

verus! {

/// A host name is a domain, or ends in a dot and the domain.
pub open spec fn at_or_under(host: Seq<char>, domain: Seq<char>) -> bool {
    host == domain || (seq!['.'] + domain).is_suffix_of(host)
}

/// A rule with other domains that are ruled out.
pub open spec fn ruling_out(rule: NetworkRule, domains: Seq<Seq<char>>) -> NetworkRule {
    NetworkRule { not_domains: domains, ..rule }
}

/// A rule with other domains that are asked for.
pub open spec fn asking_for(rule: NetworkRule, domains: Seq<Seq<char>>) -> NetworkRule {
    NetworkRule { domains, ..rule }
}

/// A rule with other patterns.
pub open spec fn looking_for(rule: NetworkRule, patterns: Seq<Seq<char>>) -> NetworkRule {
    NetworkRule { patterns, ..rule }
}

/// A host name is a domain, or lies under it, if and only if it is the domain with
/// nothing, or with some text and a dot, before it.
pub proof fn subdomains(before: Seq<char>, host: Seq<char>, domain: Seq<char>)
    ensures
        within(host, domain) == at_or_under(host, domain),
        within(domain, domain),
        within(before + seq!['.'] + domain, domain),
        !before.contains('.') && within(before + domain, domain) ==> before.len() == 0,
{
    let dotted = seq!['.'] + domain;
    if within(host, domain) && host != domain {
        let n = host.len() - domain.len();
        assert(host.subrange(n as int, host.len() as int) == domain);
        assert(host.subrange(n - 1, host.len() as int) =~= dotted);
    }
    if dotted.is_suffix_of(host) {
        let n = host.len() - domain.len();
        assert(host.subrange(n - 1, host.len() as int) == dotted);
        assert(host.subrange(n as int, host.len() as int) =~= dotted.subrange(1, dotted.len() as int));
        assert(dotted.subrange(1, dotted.len() as int) =~= domain);
        assert(host[n - 1] == dotted[0]) by {
            assert(host.subrange(n - 1, host.len() as int)[0] == dotted[0]);
        }
    }
    let longer = before + seq!['.'] + domain;
    assert(longer.subrange(before.len() + 1int, longer.len() as int) =~= domain);
    assert(longer[before.len() as int] == '.');
    let other = before + domain;
    if before.len() > 0 && within(other, domain) {
        assert(other.len() != domain.len());
        assert(other[other.len() - domain.len() - 1] == '.');
        assert(before[before.len() - 1] == '.');
    }
}

/// A rule with domains applies where the rule without them does, if the source is not
/// known, or is at or under one of the domains that are asked for, where any are, and
/// at or under none of those that are ruled out.
pub proof fn domains_restrict_a_rule(rule: NetworkRule, request: RequestModel)
    ensures
        rule.matches(request) <==> {
            let source = request.source_hostname;
            let free = NetworkRule { domains: Seq::empty(), not_domains: Seq::empty(), ..rule };
            &&& free.matches(request)
            &&& source.len() == 0 || rule.domains.len() == 0 || exists|i: int|
                0 <= i < rule.domains.len() && at_or_under(source, #[trigger] rule.domains[i])
            &&& source.len() == 0 || forall|i: int|
                0 <= i < rule.not_domains.len() ==> !at_or_under(
                    source,
                    #[trigger] rule.not_domains[i],
                )
        },
{
    let source = request.source_hostname;
    let free = NetworkRule { domains: Seq::empty(), not_domains: Seq::empty(), ..rule };
    assert forall|d: Seq<char>| #[trigger] within(source, d) == at_or_under(source, d) by {
        subdomains(Seq::empty(), source, d);
    }
    assert forall|i: int| 0 <= i < rule.domains.len() implies within(
        source,
        #[trigger] rule.domains[i],
    ) == at_or_under(source, rule.domains[i]) by {}
    assert forall|i: int| 0 <= i < rule.not_domains.len() implies within(
        source,
        #[trigger] rule.not_domains[i],
    ) == at_or_under(source, rule.not_domains[i]) by {}
    assert(free.patterns == rule.patterns && free.mask == rule.mask);
    if rule.matches(request) {
        assert(free.admits(request));
        assert(free.matches(request));
        if source.len() > 0 && rule.domains.len() > 0 {
            let i = choose|i: int|
                0 <= i < rule.domains.len() && within(source, #[trigger] rule.domains[i]);
            assert(at_or_under(source, rule.domains[i]));
        }
    }
    if free.matches(request) && source.len() > 0 && rule.domains.len() > 0 && exists|i: int|
        0 <= i < rule.domains.len() && at_or_under(source, #[trigger] rule.domains[i]) {
        let i = choose|i: int|
            0 <= i < rule.domains.len() && at_or_under(source, #[trigger] rule.domains[i]);
        assert(within(source, rule.domains[i]));
    }
}

/// A rule does not apply to requests of a source that it rules out, at whatever place
/// in the list the domain stands, nor to those of sources under the domain.
pub proof fn ruled_out_sources_are_left_alone(
    rule: NetworkRule,
    request: RequestModel,
    i: int,
    before: Seq<char>,
)
    requires
        0 <= i < rule.not_domains.len(),
        request.source_hostname.len() > 0,
        request.source_hostname == rule.not_domains[i] || request.source_hostname == before + seq![
            '.',
        ] + rule.not_domains[i],
    ensures
        !rule.matches(request),
{
    domains_restrict_a_rule(rule, request);
    subdomains(before, request.source_hostname, rule.not_domains[i]);
}

/// To rule out the domains of two lists is to rule out those of either; to ask for the
/// domains of two lists is to ask for those of one or the other. So the order of the
/// domains does not count.
pub proof fn domain_lists_add_up(
    rule: NetworkRule,
    a: Seq<Seq<char>>,
    b: Seq<Seq<char>>,
    request: RequestModel,
)
    ensures
        ruling_out(rule, a + b).matches(request) == (ruling_out(rule, a).matches(request) && ruling_out(rule, b).matches(request)),
        ruling_out(rule, a + b).matches(request) == ruling_out(rule, b + a).matches(request),
        a.len() > 0 && b.len() > 0 ==> asking_for(rule, a + b).matches(request) == (
        asking_for(rule, a).matches(request) || asking_for(rule, b).matches(request)),
        asking_for(rule, a + b).matches(request) == asking_for(rule, b + a).matches(request),
{
    lemma_not_domains(rule, a, b, request);
    lemma_not_domains(rule, b, a, request);
    lemma_domains(rule, a, b, request);
    lemma_domains(rule, b, a, request);
    if a.len() == 0 {
        assert(a + b =~= b + a);
    }
    if b.len() == 0 {
        assert(a + b =~= b + a);
    }
}

proof fn lemma_not_domains(
    rule: NetworkRule,
    a: Seq<Seq<char>>,
    b: Seq<Seq<char>>,
    request: RequestModel,
)
    ensures
        ruling_out(rule, a + b).matches(request) == (ruling_out(rule, a).matches(request) && ruling_out(rule, b).matches(request)),
{
    let source = request.source_hostname;
    let ra = NetworkRule { not_domains: a, ..rule };
    let rb = NetworkRule { not_domains: b, ..rule };
    let rab = NetworkRule { not_domains: a + b, ..rule };
    domains_restrict_a_rule(ra, request);
    domains_restrict_a_rule(rb, request);
    domains_restrict_a_rule(rab, request);
    let none = NetworkRule { domains: Seq::empty(), not_domains: Seq::empty(), ..rule };
    assert(NetworkRule { domains: Seq::empty(), not_domains: Seq::empty(), ..ra } == none);
    assert(NetworkRule { domains: Seq::empty(), not_domains: Seq::empty(), ..rb } == none);
    assert(NetworkRule { domains: Seq::empty(), not_domains: Seq::empty(), ..rab } == none);
    let ab = a + b;
    if source.len() > 0 && rab.matches(request) {
        assert forall|i: int| 0 <= i < a.len() implies !at_or_under(source, #[trigger] a[i]) by {
            assert(ab[i] == a[i]);
        }
        assert forall|i: int| 0 <= i < b.len() implies !at_or_under(source, #[trigger] b[i]) by {
            assert(ab[a.len() + i] == b[i]);
        }
    }
    if source.len() > 0 && ra.matches(request) && rb.matches(request) {
        assert forall|i: int| 0 <= i < ab.len() implies !at_or_under(source, #[trigger] ab[i]) by {
            if i < a.len() {
                assert(ab[i] == a[i]);
            } else {
                assert(ab[i] == b[i - a.len()]);
            }
        }
    }
}

proof fn lemma_domains(
    rule: NetworkRule,
    a: Seq<Seq<char>>,
    b: Seq<Seq<char>>,
    request: RequestModel,
)
    ensures
        a.len() > 0 && b.len() > 0 ==> asking_for(rule, a + b).matches(request) == (
        asking_for(rule, a).matches(request) || asking_for(rule, b).matches(request)),
{
    let source = request.source_hostname;
    let ra = NetworkRule { domains: a, ..rule };
    let rb = NetworkRule { domains: b, ..rule };
    let rab = NetworkRule { domains: a + b, ..rule };
    domains_restrict_a_rule(ra, request);
    domains_restrict_a_rule(rb, request);
    domains_restrict_a_rule(rab, request);
    let none = NetworkRule { domains: Seq::empty(), not_domains: Seq::empty(), ..rule };
    assert(NetworkRule { domains: Seq::empty(), not_domains: Seq::empty(), ..ra } == none);
    assert(NetworkRule { domains: Seq::empty(), not_domains: Seq::empty(), ..rb } == none);
    assert(NetworkRule { domains: Seq::empty(), not_domains: Seq::empty(), ..rab } == none);
    let ab = a + b;
    if exists|i: int| 0 <= i < a.len() && at_or_under(source, #[trigger] a[i]) {
        let i = choose|i: int| 0 <= i < a.len() && at_or_under(source, #[trigger] a[i]);
        assert(ab[i] == a[i]);
    }
    if exists|i: int| 0 <= i < b.len() && at_or_under(source, #[trigger] b[i]) {
        let i = choose|i: int| 0 <= i < b.len() && at_or_under(source, #[trigger] b[i]);
        assert(ab[a.len() + i] == b[i]);
    }
    if exists|i: int| 0 <= i < ab.len() && at_or_under(source, #[trigger] ab[i]) {
        let i = choose|i: int| 0 <= i < ab.len() && at_or_under(source, #[trigger] ab[i]);
        if i < a.len() {
            assert(ab[i] == a[i]);
        } else {
            assert(ab[i] == b[i - a.len()]);
        }
    }
}

/// A rule that is not for a party applies to none of its requests; other requests it
/// treats as if it were for both.
pub proof fn parties_restrict_a_rule(rule: NetworkRule, request: RequestModel)
    ensures
        rule.matches(request) <==> {
            let both = NetworkRule {
                mask: FilterMask { third_party: true, first_party: true, ..rule.mask },
                ..rule
            };
            &&& both.matches(request)
            &&& !rule.mask.third_party ==> request.third_party != Some(true)
            &&& !rule.mask.first_party ==> request.third_party != Some(false)
        },
{
    let both = NetworkRule {
        mask: FilterMask { third_party: true, first_party: true, ..rule.mask },
        ..rule
    };
    assert(both.patterns == rule.patterns);
    assert forall|p: Seq<char>| #[trigger]
        pattern_matches(both.mask, p, request) == pattern_matches(rule.mask, p, request) by {}
    if rule.matches(request) {
        let i = choose|i: int|
            0 <= i < rule.patterns.len() && pattern_matches(
                rule.mask,
                #[trigger] rule.patterns[i],
                request,
            );
        assert(pattern_matches(both.mask, both.patterns[i], request));
    }
    if both.matches(request) {
        let i = choose|i: int|
            0 <= i < both.patterns.len() && pattern_matches(
                both.mask,
                #[trigger] both.patterns[i],
                request,
            );
        assert(pattern_matches(rule.mask, rule.patterns[i], request));
    }
}

/// A rule that is not for a scheme applies to none of its requests; other requests it
/// treats as if it were for both.
pub proof fn schemes_restrict_a_rule(rule: NetworkRule, request: RequestModel)
    ensures
        rule.matches(request) <==> {
            let both = NetworkRule {
                mask: FilterMask { http: true, https: true, ..rule.mask },
                ..rule
            };
            &&& both.matches(request)
            &&& !rule.mask.http ==> !request.is_http
            &&& !rule.mask.https ==> !request.is_https
        },
{
    let both = NetworkRule { mask: FilterMask { http: true, https: true, ..rule.mask }, ..rule };
    assert(both.patterns == rule.patterns);
    assert(both.domains == rule.domains && both.not_domains == rule.not_domains);
    assert forall|p: Seq<char>| #[trigger]
        pattern_matches(both.mask, p, request) == pattern_matches(rule.mask, p, request) by {}
    if rule.matches(request) {
        let i = choose|i: int|
            0 <= i < rule.patterns.len() && pattern_matches(
                rule.mask,
                #[trigger] rule.patterns[i],
                request,
            );
        assert(pattern_matches(both.mask, both.patterns[i], request));
    }
    if both.matches(request) {
        let i = choose|i: int|
            0 <= i < both.patterns.len() && pattern_matches(
                both.mask,
                #[trigger] both.patterns[i],
                request,
            );
        assert(pattern_matches(rule.mask, rule.patterns[i], request));
    }
}

/// A rule for the kinds of a set, or an exception, is for requests of a kind.
pub open spec fn is_for(kinds: KindSet, exception: bool, kind: RequestType) -> bool {
    ||| kind is Image && kinds.image
    ||| kind is Media && kinds.media
    ||| kind is Object && kinds.object
    ||| kind is Other && kinds.other
    ||| kind is Ping && kinds.ping
    ||| kind is Script && kinds.script
    ||| kind is Stylesheet && kinds.stylesheet
    ||| kind is Subdocument && kinds.subdocument
    ||| kind is Websocket && kinds.websocket
    ||| kind is Xmlhttprequest && kinds.xmlhttprequest
    ||| kind is Font && kinds.font
    ||| kind is Document && (kinds.document || exception)
}

/// A rule for every kind.
pub open spec fn for_every_kind(rule: NetworkRule) -> NetworkRule {
    let every = KindSet {
        image: true,
        media: true,
        object: true,
        other: true,
        ping: true,
        script: true,
        stylesheet: true,
        subdocument: true,
        websocket: true,
        xmlhttprequest: true,
        font: true,
        document: true,
    };
    NetworkRule { mask: FilterMask { kinds: every, ..rule.mask }, ..rule }
}

proof fn lemma_is_for(mask: FilterMask, kind: RequestType)
    ensures
        mask.allows(kind) == is_for(mask.kinds, mask.exception, kind),
{
}

/// A rule applies to requests of the kinds that it lists, and an exception to those
/// for documents, too; in all else it treats kinds alike.
pub proof fn kinds_restrict_a_rule(rule: NetworkRule, request: RequestModel, kind: RequestType)
    requires
        kind != RequestType::Csp,
    ensures
        rule.matches(request) <==> is_for(
            rule.mask.kinds,
            rule.mask.exception,
            request.request_type,
        ) && for_every_kind(rule).matches(of_kind(request, kind)),
{
    let free = for_every_kind(rule);
    let other = of_kind(request, kind);
    lemma_is_for(rule.mask, request.request_type);
    lemma_is_for(free.mask, kind);
    lemma_same_domains(rule, free, request, other);
    assert(free.patterns == rule.patterns);
    assert forall|p: Seq<char>| #[trigger]
        pattern_matches(free.mask, p, other) == pattern_matches(rule.mask, p, request) by {}
    if rule.matches(request) {
        let i = choose|i: int|
            0 <= i < rule.patterns.len() && pattern_matches(
                rule.mask,
                #[trigger] rule.patterns[i],
                request,
            );
        assert(pattern_matches(free.mask, free.patterns[i], other));
    }
    if free.matches(other) {
        let i = choose|i: int|
            0 <= i < free.patterns.len() && pattern_matches(
                free.mask,
                #[trigger] free.patterns[i],
                other,
            );
        assert(pattern_matches(rule.mask, rule.patterns[i], request));
    }
}

/// A request as one of another kind.
pub open spec fn of_kind(request: RequestModel, kind: RequestType) -> RequestModel {
    RequestModel { request_type: kind, ..request }
}

/// Rules that differ in their kinds alone admit the same requests, but for kinds.
proof fn lemma_same_domains(a: NetworkRule, b: NetworkRule, request: RequestModel, other: RequestModel)
    requires
        b == for_every_kind(a),
        other == of_kind(request, other.request_type),
        b.mask.allows(other.request_type),
    ensures
        a.admits(request) == (a.mask.allows(request.request_type) && b.admits(other)),
{
    assert(a.domains == b.domains && a.not_domains == b.not_domains);
    assert(request.source_hostname == other.source_hostname);
}

/// A rule without what it is for: neither important nor about policies, generic hiding,
/// redirections or other rules, and without a tag.
pub open spec fn for_no_role(rule: NetworkRule) -> NetworkRule {
    NetworkRule {
        mask: FilterMask {
            important: false,
            csp: false,
            generic_hide: false,
            bad_filter: false,
            redirect_only: false,
            ..rule.mask
        },
        redirect: None,
        csp: None,
        tag: None,
        raw_line: None,
        ..rule
    }
}

/// What a rule is for does not decide on where it applies.
pub proof fn roles_do_not_count(rule: NetworkRule, request: RequestModel)
    ensures
        rule.matches(request) == for_no_role(rule).matches(request),
{
    let other = for_no_role(rule);
    assert(other.patterns == rule.patterns);
    assert(other.domains == rule.domains && other.not_domains == rule.not_domains);
    assert(other.mask.allows(request.request_type) == rule.mask.allows(request.request_type));
    assert(other.admits(request) == rule.admits(request));
    assert forall|p: Seq<char>| #[trigger]
        pattern_matches(other.mask, p, request) == pattern_matches(rule.mask, p, request) by {}
    if rule.matches(request) {
        let i = choose|i: int|
            0 <= i < rule.patterns.len() && pattern_matches(
                rule.mask,
                #[trigger] rule.patterns[i],
                request,
            );
        assert(pattern_matches(other.mask, other.patterns[i], request));
    }
    if other.matches(request) {
        let i = choose|i: int|
            0 <= i < other.patterns.len() && pattern_matches(
                other.mask,
                #[trigger] other.patterns[i],
                request,
            );
        assert(pattern_matches(rule.mask, rule.patterns[i], request));
    }
}

/// A rule with several patterns applies where it would with one of them.
pub proof fn one_pattern_is_enough(
    rule: NetworkRule,
    a: Seq<Seq<char>>,
    b: Seq<Seq<char>>,
    request: RequestModel,
)
    ensures
        looking_for(rule, a + b).matches(request) == (looking_for(rule, a).matches(request) || looking_for(rule, b).matches(request)),
        !looking_for(rule, Seq::empty()).matches(request),
{
    let ra = NetworkRule { patterns: a, ..rule };
    let rb = NetworkRule { patterns: b, ..rule };
    let rab = NetworkRule { patterns: a + b, ..rule };
    assert(ra.domains == rab.domains && rb.domains == rab.domains);
    assert(ra.not_domains == rab.not_domains && rb.not_domains == rab.not_domains);
    assert(ra.admits(request) == rab.admits(request));
    assert(rb.admits(request) == rab.admits(request));
    if ra.matches(request) {
        let i = choose|i: int|
            0 <= i < a.len() && pattern_matches(ra.mask, #[trigger] ra.patterns[i], request);
        assert(rab.patterns[i] == a[i]);
    }
    if rb.matches(request) {
        let i = choose|i: int|
            0 <= i < b.len() && pattern_matches(rb.mask, #[trigger] rb.patterns[i], request);
        assert(rab.patterns[a.len() + i] == b[i]);
    }
    if rab.matches(request) {
        let i = choose|i: int|
            0 <= i < rab.patterns.len() && pattern_matches(
                rab.mask,
                #[trigger] rab.patterns[i],
                request,
            );
        if i < a.len() {
            assert(ra.patterns[i] == rab.patterns[i]);
        } else {
            assert(rb.patterns[i - a.len()] == rab.patterns[i]);
        }
    }
}

/// The characters of a text stand for themselves in a pattern.
pub open spec fn is_literal(p: Seq<char>) -> bool {
    !p.contains('*') && !p.contains('^')
}

/// A pattern without `*` and `^` covers a text that starts with it, or with `to_end` is
/// it; and stands in a text that holds it, or with `to_end` ends in it.
pub proof fn literal_patterns(p: Seq<char>, t: Seq<char>)
    requires
        is_literal(p),
    ensures
        covers(p, t, false) <==> p.is_prefix_of(t),
        covers(p, t, true) <==> p == t,
        stands_in(p, t, false) <==> exists|i: int|
            0 <= i <= t.len() && p.is_prefix_of(#[trigger] t.skip(i)),
        stands_in(p, t, true) <==> p.is_suffix_of(t),
{
    lemma_literal(p, t);
    assert forall|i: int| 0 <= i <= t.len() implies covers(p, #[trigger] t.skip(i), false)
        == p.is_prefix_of(t.skip(i)) && covers(p, t.skip(i), true) == (p == t.skip(i)) by {
        lemma_literal(p, t.skip(i));
    }
    if stands_in(p, t, false) {
        let i = choose|i: int| 0 <= i <= t.len() && #[trigger] covers(p, t.skip(i), false);
        assert(p.is_prefix_of(t.skip(i)));
    }
    if exists|i: int| 0 <= i <= t.len() && p.is_prefix_of(#[trigger] t.skip(i)) {
        let i = choose|i: int| 0 <= i <= t.len() && p.is_prefix_of(#[trigger] t.skip(i));
        assert(covers(p, t.skip(i), false));
    }
    if stands_in(p, t, true) {
        let i = choose|i: int| 0 <= i <= t.len() && #[trigger] covers(p, t.skip(i), true);
        assert(p == t.skip(i));
        assert(t.subrange(t.len() - p.len(), t.len() as int) =~= p);
    }
    if p.is_suffix_of(t) {
        let i = t.len() - p.len();
        assert(t.skip(i) =~= t.subrange(i, t.len() as int));
        assert(covers(p, t.skip(i), true));
    }
}

proof fn lemma_literal(p: Seq<char>, t: Seq<char>)
    requires
        is_literal(p),
    ensures
        covers(p, t, false) <==> p.is_prefix_of(t),
        covers(p, t, true) <==> p == t,
    decreases p.len(),
{
    if p.len() == 0 {
        assert(t.subrange(0, 0) =~= p);
        if t.len() == 0 {
            assert(p =~= t);
        }
    } else {
        let rest = p.drop_first();
        assert(p.contains(p[0]));
        assert(is_literal(rest)) by {
            if rest.contains('*') {
                let i = choose|i: int| 0 <= i < rest.len() && rest[i] == '*';
                assert(p[i + 1] == '*');
            }
            if rest.contains('^') {
                let i = choose|i: int| 0 <= i < rest.len() && rest[i] == '^';
                assert(p[i + 1] == '^');
            }
        }
        if t.len() > 0 {
            lemma_literal(rest, t.drop_first());
            if p.is_prefix_of(t) {
                assert(p == t.subrange(0, p.len() as int));
                assert(rest =~= t.drop_first().subrange(0, rest.len() as int));
                assert(p[0] == t.subrange(0, p.len() as int)[0]);
            }
            if t[0] == p[0] && rest.is_prefix_of(t.drop_first()) {
                assert(rest == t.drop_first().subrange(0, rest.len() as int));
                assert(p =~= t.subrange(0, p.len() as int)) by {
                    assert forall|i: int| 0 <= i < p.len() implies p[i] == t[i] by {
                        if i > 0 {
                            assert(rest[i - 1] == t.drop_first().subrange(
                                0,
                                rest.len() as int,
                            )[i - 1]);
                        }
                    }
                }
            }
            if p == t {
                assert(rest =~= t.drop_first());
            }
            if t[0] == p[0] && rest == t.drop_first() {
                assert(p =~= seq![p[0]] + rest);
                assert(t =~= seq![t[0]] + t.drop_first());
            }
        }
    }
}

/// What a pattern with a text in front covers: what starts with the text, and goes on
/// as the rest of the pattern asks.
proof fn lemma_literal_front(p: Seq<char>, q: Seq<char>, t: Seq<char>, to_end: bool)
    requires
        is_literal(p),
    ensures
        covers(p + q, t, to_end) <==> p.is_prefix_of(t) && covers(
            q,
            t.skip(p.len() as int),
            to_end,
        ),
    decreases p.len(),
{
    if p.len() == 0 {
        assert(p + q =~= q);
        assert(t.skip(0) =~= t);
        assert(t.subrange(0, 0) =~= p);
    } else {
        let rest = p.drop_first();
        assert(p.contains(p[0]));
        assert((p + q).drop_first() =~= rest + q);
        assert(is_literal(rest)) by {
            if rest.contains('*') {
                let i = choose|i: int| 0 <= i < rest.len() && rest[i] == '*';
                assert(p[i + 1] == '*');
            }
            if rest.contains('^') {
                let i = choose|i: int| 0 <= i < rest.len() && rest[i] == '^';
                assert(p[i + 1] == '^');
            }
        }
        lemma_literal(p, t);
        if t.len() > 0 {
            lemma_literal_front(rest, q, t.drop_first(), to_end);
            lemma_literal(rest, t.drop_first());
            if p.len() <= t.len() {
                assert(t.drop_first().skip(rest.len() as int) =~= t.skip(p.len() as int));
            }
        }
    }
}

/// A `*` behind a text stands for any run of characters.
pub proof fn stars_stand_for_any_run(p: Seq<char>, q: Seq<char>, t: Seq<char>, to_end: bool)
    requires
        is_literal(p),
    ensures
        covers(p + seq!['*'] + q, t, to_end) <==> p.is_prefix_of(t) && exists|k: int|
            p.len() <= k <= t.len() && #[trigger] covers(q, t.skip(k), to_end),
        stands_in(q, t, to_end) <==> covers(seq!['*'] + q, t, to_end),
{
    let n = p.len() as int;
    let star = seq!['*'] + q;
    assert(p + seq!['*'] + q =~= p + star);
    lemma_literal_front(p, star, t, to_end);
    assert(star.drop_first() =~= q);
    lemma_wildcard(star, t, to_end);
    if p.is_prefix_of(t) {
        let tail = t.skip(n);
        lemma_wildcard(star, tail, to_end);
        if stands_in(q, tail, to_end) {
            let i = choose|i: int| 0 <= i <= tail.len() && #[trigger] covers(q, tail.skip(i), to_end);
            assert(tail.skip(i) =~= t.skip(n + i));
            assert(covers(q, t.skip(n + i), to_end));
        }
        if exists|k: int| n <= k <= t.len() && #[trigger] covers(q, t.skip(k), to_end) {
            let k = choose|k: int| n <= k <= t.len() && #[trigger] covers(q, t.skip(k), to_end);
            assert(tail.skip(k - n) =~= t.skip(k));
            assert(covers(q, tail.skip(k - n), to_end));
        }
    }
}

/// A `^` behind a text stands for one ASCII character that is no letter, no digit and
/// none of `_`, `-`, `.` and `%`, or for the end.
pub proof fn carets_stand_for_separators(p: Seq<char>, q: Seq<char>, t: Seq<char>, to_end: bool)
    requires
        is_literal(p),
    ensures
        covers(p + seq!['^'] + q, t, to_end) <==> p.is_prefix_of(t) && if t.len() == p.len() {
            covers(q, Seq::empty(), to_end)
        } else {
            &&& !is_host_char(t[p.len() as int])
            &&& covers(q, t.skip(p.len() + 1int), to_end)
        },
{
    let n = p.len() as int;
    let caret = seq!['^'] + q;
    assert(p + seq!['^'] + q =~= p + caret);
    lemma_literal_front(p, caret, t, to_end);
    assert(caret.drop_first() =~= q);
    assert(caret[0] == '^');
    if p.is_prefix_of(t) {
        let tail = t.skip(n);
        if t.len() > n {
            lemma_separator(t[n]);
            assert(tail[0] == t[n]);
            assert(tail.drop_first() =~= t.skip(n + 1));
        } else {
            assert(tail =~= Seq::empty());
        }
    }
}

/// A pattern for a whole host is found in the address of a request for the host or for
/// one under it, and in no other. A host name ends where the address goes on with a
/// separator, or ends.
pub proof fn host_patterns_name_hosts(domain: Seq<char>, host: Seq<char>, tail: Seq<char>)
    requires
        domain.len() > 0,
        is_host_text(domain),
        is_host_text(host),
        tail.len() > 0 ==> !is_host_char(tail[0]),
    ensures
        covers_host(domain + seq!['^'], host, host + tail, false) <==> at_or_under(host, domain),
{
    let p = domain + seq!['^'];
    let hosted = host + tail;
    assert(is_literal(domain)) by {
        if domain.contains('*') {
            let i = choose|i: int| 0 <= i < domain.len() && domain[i] == '*';
            lemma_separator(domain[i]);
        }
        if domain.contains('^') {
            let i = choose|i: int| 0 <= i < domain.len() && domain[i] == '^';
            lemma_separator(domain[i]);
        }
    }
    assert(p[domain.len() as int] == '^');
    assert(!names_host(p));
    assert forall|k: int| 0 <= k <= hosted.len() implies #[trigger] covers(p, hosted.skip(k), false)
        == (domain.is_prefix_of(hosted.skip(k)) && (hosted.len() - k == domain.len()
        || is_separator(hosted[k + domain.len()]))) by {
        let t = hosted.skip(k);
        let none = Seq::<char>::empty();
        assert(p =~= domain + seq!['^'] + none);
        carets_stand_for_separators(domain, none, t, false);
        lemma_literal(domain, t);
        assert(covers(none, none, false));
        if domain.is_prefix_of(t) && t.len() > domain.len() {
            assert(covers(none, t.skip(domain.len() + 1int), false));
            assert(t[domain.len() as int] == hosted[k + domain.len()]);
            lemma_separator(hosted[k + domain.len()]);
        }
    }
    if covers_host(p, host, hosted, false) {
        let k = choose|k: int| #[trigger]
            label_start(host, k) && k <= hosted.len() && covers(p, hosted.skip(k), false);
        let t = hosted.skip(k);
        assert(0 <= k <= host.len());
        assert(domain == t.subrange(0, domain.len() as int));
        let end = k + domain.len();
        // The host name ends where the domain does.
        if end < host.len() {
            assert(hosted[end] == host[end]);
            lemma_separator(host[end]);
        }
        if end > host.len() {
            let i = host.len() - k;
            assert(hosted[host.len() as int] == tail[0]);
            assert(domain[i] == t.subrange(0, domain.len() as int)[i]);
            assert(domain[i] == tail[0]);
        }
        assert(end == host.len());
        assert(domain =~= host.skip(k)) by {
            assert forall|i: int| 0 <= i < domain.len() implies domain[i] == host[k + i] by {
                assert(t.subrange(0, domain.len() as int)[i] == hosted[k + i]);
            }
        }
        if k > 0 {
            assert(host.subrange(k - 1, host.len() as int) =~= seq!['.'] + domain);
        } else {
            assert(host =~= domain);
        }
    }
    if at_or_under(host, domain) {
        let k = host.len() - domain.len();
        if host != domain {
            let dotted = seq!['.'] + domain;
            assert(host.subrange(k - 1, host.len() as int) == dotted);
            assert(host[k - 1] == '.') by {
                assert(host.subrange(k - 1, host.len() as int)[0] == dotted[0]);
            }
            assert forall|i: int| 0 <= i < domain.len() implies domain[i] == host[k + i] by {
                assert(host.subrange(k - 1, host.len() as int)[i + 1] == dotted[i + 1]);
            }
        }
        assert(label_start(host, k as int));
        assert(domain =~= hosted.skip(k as int).subrange(0, domain.len() as int));
        if hosted.len() - k != domain.len() {
            assert(hosted[host.len() as int] == tail[0]);
            lemma_separator(tail[0]);
        }
        assert(covers(p, hosted.skip(k as int), false));
    }
}

/// A pattern for a host and a path under it is found in the address of a request for the
/// host, or for one under it, where the rest of the address is covered by the path, and in
/// no other.
pub proof fn host_patterns_go_on_with_paths(
    domain: Seq<char>,
    path: Seq<char>,
    host: Seq<char>,
    tail: Seq<char>,
    to_end: bool,
)
    requires
        domain.len() > 0,
        is_host_text(domain),
        is_host_text(host),
        tail.len() > 0 ==> !is_host_char(tail[0]),
        path.len() > 0,
        !is_host_char(path[0]) && path[0] != '*' && path[0] != '^',
    ensures
        covers_host(domain + path, host, host + tail, to_end) <==> at_or_under(host, domain)
            && covers(path, tail, to_end),
{
    let p = domain + path;
    let hosted = host + tail;
    let n = domain.len() as int;
    assert(is_literal(domain)) by {
        if domain.contains('*') {
            let i = choose|i: int| 0 <= i < n && domain[i] == '*';
            lemma_separator(domain[i]);
        }
        if domain.contains('^') {
            let i = choose|i: int| 0 <= i < n && domain[i] == '^';
            lemma_separator(domain[i]);
        }
    }
    assert(p[n] == path[0]);
    lemma_separator(path[0]);
    assert(!names_host(p));
    assert forall|k: int| 0 <= k <= hosted.len() implies #[trigger] covers(p, hosted.skip(k), to_end)
        == (domain.is_prefix_of(hosted.skip(k)) && covers(path, hosted.skip(k).skip(n), to_end)) by {
        lemma_literal_front(domain, path, hosted.skip(k), to_end);
    }
    if covers_host(p, host, hosted, to_end) {
        let k = choose|k: int| #[trigger]
            label_start(host, k) && k <= hosted.len() && covers(p, hosted.skip(k), to_end);
        let t = hosted.skip(k);
        let rest = t.skip(n);
        assert(domain == t.subrange(0, n));
        assert(rest.len() > 0 && rest[0] == path[0]);
        let end = k + n;
        assert(hosted[end] == path[0]);
        if end < host.len() {
            assert(hosted[end] == host[end]);
        }
        if end > host.len() {
            let i = host.len() - k;
            assert(hosted[host.len() as int] == tail[0]);
            assert(domain[i] == t.subrange(0, n)[i]);
            assert(domain[i] == tail[0]);
        }
        assert(end == host.len());
        assert(rest =~= tail);
        assert(domain =~= host.skip(k)) by {
            assert forall|i: int| 0 <= i < n implies domain[i] == host[k + i] by {
                assert(t.subrange(0, n)[i] == hosted[k + i]);
            }
        }
        if k > 0 {
            assert(host.subrange(k - 1, host.len() as int) =~= seq!['.'] + domain);
        } else {
            assert(host =~= domain);
        }
    }
    if at_or_under(host, domain) && covers(path, tail, to_end) {
        let k = host.len() - domain.len();
        if host != domain {
            let dotted = seq!['.'] + domain;
            assert(host.subrange(k - 1, host.len() as int) == dotted);
            assert(host[k - 1] == '.') by {
                assert(host.subrange(k - 1, host.len() as int)[0] == dotted[0]);
            }
            assert forall|i: int| 0 <= i < domain.len() implies domain[i] == host[k + i] by {
                assert(host.subrange(k - 1, host.len() as int)[i + 1] == dotted[i + 1]);
            }
        }
        assert(label_start(host, k as int));
        assert(domain =~= hosted.skip(k as int).subrange(0, n));
        assert(hosted.skip(k as int).skip(n) =~= tail);
        assert(covers(p, hosted.skip(k as int), to_end));
    }
}

/// A character that a host name may hold: an ASCII letter or digit, `-`, `_`, `.`, `%`,
/// or a character beyond ASCII.
pub open spec fn is_host_char(c: char) -> bool {
    let x = c as u32;
    ||| 0x30 <= x <= 0x39 || 0x41 <= x <= 0x5a || 0x61 <= x <= 0x7a
    ||| x == 0x2d || x == 0x5f || x == 0x2e || x == 0x25 || x >= 0x80
}

/// The characters that `^` stands for are those that no host name holds.
pub proof fn lemma_separator(c: char)
    ensures
        is_separator(c) == !is_host_char(c),
{
}

/// A text is made of characters that a host name may hold.
pub open spec fn is_host_text(s: Seq<char>) -> bool {
    forall|i: int| 0 <= i < s.len() ==> is_host_char(#[trigger] s[i])
}

/// Letter case does not count in an address, unless the rule says so.
pub proof fn letter_case_does_not_count(
    rule: NetworkRule,
    request: RequestModel,
    other: RequestModel,
)
    requires
        !rule.mask.match_case,
        lower(request.address) == lower(other.address),
        lower(request.hosted) == lower(other.hosted),
        other == (RequestModel { address: other.address, hosted: other.hosted, ..request }),
    ensures
        rule.matches(request) == rule.matches(other),
{
    assert(rule.admits(request) == rule.admits(other));
    assert forall|p: Seq<char>| #[trigger]
        pattern_matches(rule.mask, p, request) == pattern_matches(rule.mask, p, other) by {}
    if rule.matches(request) {
        let i = choose|i: int|
            0 <= i < rule.patterns.len() && pattern_matches(
                rule.mask,
                #[trigger] rule.patterns[i],
                request,
            );
        assert(pattern_matches(rule.mask, rule.patterns[i], other));
    }
    if rule.matches(other) {
        let i = choose|i: int|
            0 <= i < rule.patterns.len() && pattern_matches(
                rule.mask,
                #[trigger] rule.patterns[i],
                other,
            );
        assert(pattern_matches(rule.mask, rule.patterns[i], request));
    }
}

/// A regular expression is held against the address; without regard to letter case,
/// unless the rule says so.
pub proof fn regular_expressions(mask: FilterMask, pattern: Seq<char>, request: RequestModel)
    requires
        mask.regex,
    ensures
        mask.match_case ==> pattern_matches(mask, pattern, request) == (regex_verdict(
            pattern,
            request.address,
        ) == Some(true)),
        !mask.match_case ==> pattern_matches(mask, pattern, request) == (regex_verdict(
            seq!['(', '?', 'i', ')'] + pattern,
            lower(request.address),
        ) == Some(true)),
{
    reveal_strlit("(?i)");
    assert("(?i)"@ =~= seq!['(', '?', 'i', ')']);
}

} // verus!

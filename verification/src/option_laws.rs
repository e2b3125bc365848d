//! What the options of network rules mean: to which requests a line applies with an
//! option, compared with the line without it.

use vstd::prelude::*;

use crate::filters::network::{FilterMask, KindSet, NetworkRule};
use crate::filters::network_parser::{
    apply_named, apply_option, apply_options, default_mask, is_plain_host, is_slashed, kept_line,
    kinds_of, no_options, option_parts, options_start, parse_pattern, parse_rule, rule_with,
    unwanted_domain, wanted_domain, NetworkFilterError, OptionsModel,
};
use crate::match_laws::{
    at_or_under, domains_restrict_a_rule, for_every_kind, for_no_role, is_for,
    kinds_restrict_a_rule, of_kind, parties_restrict_a_rule, roles_do_not_count,
};
use crate::option_names::{
    is_option, lemma_all, lemma_badfilter, lemma_beacon, lemma_csp, lemma_css, lemma_doc,
    lemma_document, lemma_domain, lemma_first_party, lemma_font, lemma_frame, lemma_from,
    lemma_generichide, lemma_ghide, lemma_image, lemma_important, lemma_media, lemma_names_differ,
    lemma_object, lemma_object_subrequest, lemma_one_p, lemma_other, lemma_ping, lemma_redirect,
    lemma_redirect_rule, lemma_script, lemma_stylesheet, lemma_subdocument, lemma_tag,
    lemma_third_party, lemma_three_p, lemma_websocket, lemma_xhr, lemma_xmlhttprequest,
};
use crate::request::{RequestModel, RequestType};
use crate::seqs::lemma_filter_map_contains;
use crate::text::{is_space, join, lemma_trim, lower, split};
use crate::text_laws::joined_texts_are_split;

verus! {

/// The text of a rule without options.
pub open spec fn is_pattern(s: Seq<char>) -> bool {
    s.len() > 1 && !s.contains('$') && !is_space(s[0]) && !is_space(s.last())
}

/// The texts of options.
pub open spec fn are_options(list: Seq<Seq<char>>) -> bool {
    forall|i: int| 0 <= i < list.len() ==> is_option(#[trigger] list[i])
}

/// The text of a rule with options.
pub open spec fn with_options(pattern: Seq<char>, options: Seq<Seq<char>>) -> Seq<char> {
    if options.len() == 0 {
        pattern
    } else {
        pattern + seq!['$'] + join(options, seq![','])
    }
}

/// A line stands for a rule that applies to a request.
pub open spec fn line_matches(line: Seq<char>, debug: bool, request: RequestModel) -> bool {
    match parse_rule(line, debug) {
        Ok(rule) => rule.matches(request),
        Err(_) => false,
    }
}

/// What a line stands for.
#[verifier::opaque]
spec fn parsed(line: Seq<char>, debug: bool) -> Result<NetworkRule, NetworkFilterError> {
    parse_rule(line, debug)
}

/// A line that was read stands for a rule that applies to a request.
spec fn applies(read: Result<NetworkRule, NetworkFilterError>, request: RequestModel) -> bool {
    match read {
        Ok(rule) => rule_applies(rule, request),
        Err(_) => false,
    }
}

/// A rule applies to a request.
#[verifier::opaque]
spec fn rule_applies(rule: NetworkRule, request: RequestModel) -> bool {
    rule.matches(request)
}

/// A line makes an exception.
pub open spec fn is_marked(pattern: Seq<char>) -> bool {
    seq!['@', '@'].is_prefix_of(pattern)
}

/// A line without the mark of an exception.
pub open spec fn bare(pattern: Seq<char>) -> Seq<char> {
    if is_marked(pattern) {
        pattern.skip(2)
    } else {
        pattern
    }
}

proof fn lemma_joined_options(options: Seq<Seq<char>>)
    requires
        are_options(options),
        options.len() > 0,
    ensures
        !join(options, seq![',']).contains('$'),
        join(options, seq![',']).len() > 0,
        join(options, seq![',']).last() == options.last().last(),
    decreases options.len(),
{
    let all = join(options, seq![',']);
    assert(is_option(options[options.len() - 1]));
    if options.len() > 1 {
        let front = options.drop_last();
        assert(are_options(front)) by {
            assert forall|i: int| 0 <= i < front.len() implies is_option(#[trigger] front[i]) by {
                assert(front[i] == options[i]);
            }
        }
        lemma_joined_options(front);
        let head = join(front, seq![',']);
        assert(all == head + seq![','] + options.last());
        if all.contains('$') {
            let i = choose|i: int| 0 <= i < all.len() && all[i] == '$';
            if i < head.len() {
                assert(head[i] == '$');
            } else if i > head.len() {
                assert(options.last()[i - head.len() - 1] == '$');
            }
        }
    }
}

/// The options of a line are read one by one, and its pattern without them.
#[verifier::rlimit(50)]
proof fn lemma_with_options(pattern: Seq<char>, options: Seq<Seq<char>>, debug: bool)
    requires
        is_pattern(pattern),
        are_options(options),
    ensures
        parsed(with_options(pattern, options), debug) == match apply_options(
            no_options(),
            options,
        ) {
            Ok(o) => rule_of(
                o,
                is_marked(pattern),
                bare(pattern),
                kept_line(with_options(pattern, options), debug),
            ),
            Err(e) => Err(e),
        },
{
    reveal(rule_of);
    reveal(parsed);
    let line = with_options(pattern, options);
    let s = bare(pattern);
    let n = s.len() as int;
    reveal_strlit("@@");
    assert("@@"@ =~= seq!['@', '@']);
    assert(!s.contains('$')) by {
        if s.contains('$') {
            let i = choose|i: int| 0 <= i < s.len() && s[i] == '$';
            if is_marked(pattern) {
                assert(pattern[i + 2] == '$');
            }
        }
    }
    lemma_trim(line);
    if options.len() == 0 {
        s.index_of_last_ensures('$');
        assert(options =~= Seq::empty());
        assert(options_start(s) is None);
    } else {
        let tail = join(options, seq![',']);
        lemma_joined_options(options);
        assert(is_option(options[options.len() - 1]));
        assert(line[0] == pattern[0] && line.last() == tail.last());
        assert(line.subrange(0, 2) =~= pattern.subrange(0, 2));
        let body = bare(line);
        assert(body =~= s + seq!['$'] + tail);
        assert(body.last() != '/');
        body.index_of_last_ensures('$');
        assert(body[n] == '$');
        assert(body.contains('$'));
        let i = body.index_of_last('$')->0;
        if i < n {
            assert(body[n] != '$');
        }
        if i > n {
            assert(tail[i - n - 1] == '$');
            assert(tail.contains('$'));
        }
        assert(options_start(body) == Some(n + 1));
        assert(body.skip(n + 1) =~= tail);
        assert(body.take(n) =~= s);
        assert forall|k: int| 0 <= k < options.len() implies !(#[trigger] options[k]).contains(
            ',',
        ) by {
            assert(is_option(options[k]));
        }
        joined_texts_are_split(options, ',');
    }
}

proof fn lemma_apply_one_more(o: OptionsModel, options: Seq<Seq<char>>, option: Seq<char>)
    ensures
        apply_options(o, options.push(option)) == match apply_options(o, options) {
            Ok(next) => apply_option(next, option),
            Err(e) => Err(e),
        },
    decreases options.len(),
{
    let all = options.push(option);
    if options.len() == 0 {
        assert(all.drop_first() =~= Seq::empty());
        assert(all[0] == option);
        match apply_option(o, option) {
            Ok(next) => {
                assert(apply_options(next, Seq::empty()) == Ok::<OptionsModel, NetworkFilterError>(
                    next,
                ));
            },
            Err(_) => {},
        }
    } else {
        assert(all[0] == options[0]);
        assert(all.drop_first() =~= options.drop_first().push(option));
        match apply_option(o, options[0]) {
            Ok(next) => {
                lemma_apply_one_more(next, options.drop_first(), option);
            },
            Err(_) => {},
        }
    }
}

/// What options say.
#[verifier::opaque]
spec fn read_options(options: Seq<Seq<char>>) -> Result<OptionsModel, NetworkFilterError> {
    apply_options(no_options(), options)
}

/// What one more option says.
#[verifier::opaque]
spec fn read_one(o: OptionsModel, option: Seq<char>) -> Result<OptionsModel, NetworkFilterError> {
    apply_option(o, option)
}

/// A line with one more option: what the option makes of the others, and the rule of
/// those.
proof fn lemma_one_more(
    pattern: Seq<char>,
    options: Seq<Seq<char>>,
    option: Seq<char>,
    debug: bool,
)
    requires
        is_pattern(pattern),
        are_options(options),
        is_option(option),
    ensures
        parsed(with_options(pattern, options.push(option)), debug) == match read_options(options) {
            Ok(o) => match read_one(o, option) {
                Ok(o2) => rule_of(
                    o2,
                    is_marked(pattern),
                    bare(pattern),
                    kept_line(with_options(pattern, options.push(option)), debug),
                ),
                Err(e) => Err(e),
            },
            Err(e) => Err(e),
        },
        parsed(with_options(pattern, options), debug) == match read_options(options) {
            Ok(o) => rule_of(
                o,
                is_marked(pattern),
                bare(pattern),
                kept_line(with_options(pattern, options), debug),
            ),
            Err(e) => Err(e),
        },
{
    reveal(read_options);
    reveal(read_one);
    let more = options.push(option);
    assert(are_options(more)) by {
        assert forall|i: int| 0 <= i < more.len() implies is_option(#[trigger] more[i]) by {
            if i < options.len() {
                assert(more[i] == options[i]);
            }
        }
    }
    lemma_with_options(pattern, options, debug);
    lemma_with_options(pattern, more, debug);
    lemma_apply_one_more(no_options(), options, option);
}

/// Rules that look for the same in the same requests apply to the same.
proof fn lemma_same_matching(a: NetworkRule, b: NetworkRule, request: RequestModel)
    requires
        a.mask == b.mask,
        a.patterns == b.patterns,
        a.domains == b.domains,
        a.not_domains == b.not_domains,
    ensures
        a.matches(request) == b.matches(request),
{
    assert(a.admits(request) == b.admits(request));
}

/// The anchors of a mask.
spec fn anchors(mask: FilterMask) -> (bool, bool, bool, bool) {
    (mask.left_anchor, mask.right_anchor, mask.hostname_anchor, mask.regex)
}

/// A mask with anchors.
spec fn with_anchors(mask: FilterMask, a: (bool, bool, bool, bool)) -> FilterMask {
    FilterMask { left_anchor: a.0, right_anchor: a.1, hostname_anchor: a.2, regex: a.3, ..mask }
}

/// What a pattern is and how it is anchored depends on letter case alone.
proof fn lemma_pattern_masks(s: Seq<char>, m: FilterMask, m2: FilterMask)
    requires
        m.match_case == m2.match_case,
        anchors(m) == anchors(m2),
    ensures
        pattern_of(s, m) is None <==> pattern_of(s, m2) is None,
        pattern_of(s, m) matches Some(a) ==> pattern_of(s, m2) == Some(
            (a.0, with_anchors(m2, anchors(a.1))),
        ),
        pattern_of(s, m) matches Some(a) ==> a.1 == with_anchors(m, anchors(a.1)),
{
    reveal(pattern_of);
    if is_slashed(s) {
    } else if "||"@.is_prefix_of(s) {
    } else {
    }
}

/// Options that differ neither in letter case nor in generic hiding make rules with the
/// same patterns.
#[verifier::rlimit(80)]
proof fn lemma_change(
    o: OptionsModel,
    o2: OptionsModel,
    exception: bool,
    s: Seq<char>,
    l: Option<Seq<char>>,
    l2: Option<Seq<char>>,
)
    requires
        o.mask.match_case == o2.mask.match_case,
        o.mask.generic_hide == o2.mask.generic_hide,
        anchors(o.mask) == anchors(o2.mask),
    ensures
        rule_of(o, exception, s, l) is Err <==> rule_of(o2, exception, s, l2) is Err,
        rule_of(o, exception, s, l) matches Ok(r) ==> rule_of(o2, exception, s, l2) matches Ok(
            r2,
        ) && {
            &&& r2.patterns == r.patterns
            &&& r.domains == o.domains && r.not_domains == o.not_domains
            &&& r2.domains == o2.domains && r2.not_domains == o2.not_domains
            &&& r.redirect == o.redirect && r.csp == o.csp && r.tag == o.tag
            &&& r2.redirect == o2.redirect && r2.csp == o2.csp && r2.tag == o2.tag
            &&& same_but_kinds(r, o, exception, anchors(r.mask))
            &&& same_but_kinds(r2, o2, exception, anchors(r.mask))
            &&& exists|plain: bool| #[trigger]
                kinds_for(o, plain) == r.mask.kinds && kinds_for(o2, plain) == r2.mask.kinds
        },
{
    let m = FilterMask { exception, ..o.mask };
    let m2 = FilterMask { exception, ..o2.mask };
    lemma_pattern_masks(s, m, m2);
    lemma_rule_with(o, exception, s, l);
    lemma_rule_with(o2, exception, s, l2);
    match pattern_of(s, m) {
        Some((p, a)) => {
            let a2 = with_anchors(m2, anchors(a));
            assert(anchors(a2) == anchors(a));
            let plain = is_plain_host(p, a);
            assert(is_plain_host(p, a2) == plain);
            assert(kinds_for(o2, plain) == kinds_for(o2, is_plain_host(p, a2)));
            assert(kinds_for(o, plain) == kinds_for(o, is_plain_host(p, a)));
        },
        None => {},
    }
}

#[verifier::rlimit(60)]
proof fn lemma_rule_with(
    o: OptionsModel,
    exception: bool,
    s: Seq<char>,
    l: Option<Seq<char>>,
)
    ensures
        rule_of(o, exception, s, l) is Err <==> ((o.mask.generic_hide && !exception)
            || pattern_of(s, excepting(o.mask, exception)) is None),
        rule_of(o, exception, s, l) matches Ok(r) ==> pattern_of(
            s,
            excepting(o.mask, exception),
        ) matches Some(a) && {
            &&& r.patterns == seq![a.0]
            &&& r.domains == o.domains && r.not_domains == o.not_domains
            &&& r.redirect == o.redirect && r.csp == o.csp && r.tag == o.tag
            &&& anchors(r.mask) == anchors(a.1)
            &&& same_but_kinds(r, o, exception, anchors(a.1))
            &&& kinds_for(o, is_plain_host(a.0, a.1)) == r.mask.kinds
        },
{
    reveal(rule_of);
    reveal(pattern_of);
    reveal(kinds_for);
    reveal(same_but_kinds);
    let m = excepting(o.mask, exception);
    lemma_pattern_masks(s, m, m);
    if rule_of(o, exception, s, l) is Ok {
        let r = rule_of(o, exception, s, l)->Ok_0;
        let a = pattern_of(s, m)->0;
        assert(r.mask == (FilterMask { kinds: r.mask.kinds, ..a.1 }));
        assert(a.1 == with_anchors(m, anchors(a.1)));
    }
}

/// A mask of an exception, or not.
spec fn excepting(mask: FilterMask, exception: bool) -> FilterMask {
    FilterMask { exception, ..mask }
}

/// The rule with options and the pattern that a text stands for.
#[verifier::opaque]
spec fn rule_of(
    o: OptionsModel,
    exception: bool,
    s: Seq<char>,
    l: Option<Seq<char>>,
) -> Result<NetworkRule, NetworkFilterError> {
    rule_with(o, exception, s, l)
}

/// A pattern taken out of its anchors.
#[verifier::opaque]
spec fn pattern_of(s: Seq<char>, mask: FilterMask) -> Option<(Seq<char>, FilterMask)> {
    parse_pattern(s, mask)
}

/// The kinds that options ask for, on a pattern that names a whole host or does not.
#[verifier::opaque]
spec fn kinds_for(o: OptionsModel, plain: bool) -> KindSet {
    kinds_of(o.listed, o.dropped, plain)
}

/// The mask of a rule is that of its options, with its own kinds and anchors.
#[verifier::opaque]
spec fn same_but_kinds(
    r: NetworkRule,
    o: OptionsModel,
    exception: bool,
    a: (bool, bool, bool, bool),
) -> bool {
    r.mask == with_anchors(FilterMask { exception, kinds: r.mask.kinds, ..o.mask }, a)
}

/// What one more option makes of the rule of a line, where it says nothing of letter case,
/// generic hiding and kinds.
#[verifier::rlimit(50)]
proof fn lemma_changed(
    pattern: Seq<char>,
    options: Seq<Seq<char>>,
    option: Seq<char>,
    debug: bool,
    o2: OptionsModel,
)
    requires
        is_pattern(pattern),
        are_options(options),
        is_option(option),
        read_options(options) matches Ok(o) ==> {
            &&& read_one(o, option) == Ok::<OptionsModel, NetworkFilterError>(o2)
            &&& o2.mask.match_case == o.mask.match_case
            &&& o2.mask.generic_hide == o.mask.generic_hide
            &&& anchors(o2.mask) == anchors(o.mask)
            &&& o2.listed == o.listed && o2.dropped == o.dropped
        },
    ensures
        parsed(with_options(pattern, options), debug) is Err <==> parsed(
            with_options(pattern, options.push(option)),
            debug,
        ) is Err,
        parsed(with_options(pattern, options), debug) matches Ok(r) ==> parsed(
            with_options(pattern, options.push(option)),
            debug,
        ) matches Ok(r2) && read_options(options) matches Ok(o) && {
            &&& r2.patterns == r.patterns
            &&& r.domains == o.domains && r.not_domains == o.not_domains
            &&& r2.domains == o2.domains && r2.not_domains == o2.not_domains
            &&& r.redirect == o.redirect && r.csp == o.csp && r.tag == o.tag
            &&& r2.redirect == o2.redirect && r2.csp == o2.csp && r2.tag == o2.tag
            &&& r2.mask.kinds == r.mask.kinds
            &&& same_but_kinds(r, o, is_marked(pattern), anchors(r.mask))
            &&& same_but_kinds(r2, o2, is_marked(pattern), anchors(r.mask))
        },
{
    lemma_one_more(pattern, options, option, debug);
    match read_options(options) {
        Ok(o) => {
            let l = kept_line(with_options(pattern, options), debug);
            let l2 = kept_line(with_options(pattern, options.push(option)), debug);
            lemma_change(o, o2, is_marked(pattern), bare(pattern), l, l2);
            if rule_of(o, is_marked(pattern), bare(pattern), l) is Ok {
                let r = rule_of(o, is_marked(pattern), bare(pattern), l)->Ok_0;
                let r2 = rule_of(o2, is_marked(pattern), bare(pattern), l2)->Ok_0;
                let plain = choose|plain: bool| #[trigger]
                    kinds_for(o, plain) == r.mask.kinds && kinds_for(o2, plain) == r2.mask.kinds;
                assert(kinds_for(o, plain) == kinds_for(o2, plain)) by {
                    reveal(kinds_for);
                }
            }
        },
        Err(_) => {},
    }
}

/// A mask with a party left out.
spec fn without_party_in(mask: FilterMask, third: bool) -> FilterMask {
    if third {
        FilterMask { third_party: false, ..mask }
    } else {
        FilterMask { first_party: false, ..mask }
    }
}

proof fn lemma_party_masks(
    r: NetworkRule,
    r2: NetworkRule,
    o: OptionsModel,
    exception: bool,
    a: (bool, bool, bool, bool),
    third: bool,
)
    requires
        same_but_kinds(r, o, exception, a),
        same_but_kinds(r2, without_party(o, third), exception, a),
        r2.mask.kinds == r.mask.kinds,
    ensures
        r2.mask == without_party_in(r.mask, third),
{
    reveal(same_but_kinds);
}

proof fn lemma_party_rules(r: NetworkRule, r2: NetworkRule, third: bool, request: RequestModel)
    requires
        r2.mask == without_party_in(r.mask, third),
        r2.patterns == r.patterns,
        r2.domains == r.domains,
        r2.not_domains == r.not_domains,
    ensures
        rule_applies(r2, request) <==> rule_applies(r, request) && request.third_party != Some(third),
{
    reveal(rule_applies);
    let both = NetworkRule {
        mask: FilterMask { third_party: true, first_party: true, ..r.mask },
        ..r
    };
    let both2 = NetworkRule {
        mask: FilterMask { third_party: true, first_party: true, ..r2.mask },
        ..r2
    };
    parties_restrict_a_rule(r, request);
    parties_restrict_a_rule(r2, request);
    assert(both.mask == both2.mask);
    lemma_same_matching(both, both2, request);
}

/// Options with a party left out.
spec fn without_party(o: OptionsModel, third: bool) -> OptionsModel {
    if third {
        OptionsModel { mask: FilterMask { third_party: false, ..o.mask }, ..o }
    } else {
        OptionsModel { mask: FilterMask { first_party: false, ..o.mask }, ..o }
    }
}

#[verifier::rlimit(50)]
proof fn lemma_party(
    pattern: Seq<char>,
    options: Seq<Seq<char>>,
    option: Seq<char>,
    debug: bool,
    request: RequestModel,
    third: bool,
)
    requires
        is_pattern(pattern),
        are_options(options),
        is_option(option),
        read_options(options) matches Ok(o) ==> read_one(o, option) == Ok::<
            OptionsModel,
            NetworkFilterError,
        >(without_party(o, third)),
    ensures
        applies(parsed(with_options(pattern, options.push(option)), debug), request) <==> {
            &&& applies(parsed(with_options(pattern, options), debug), request)
            &&& request.third_party != Some(third)
        },
{
    let before = parsed(with_options(pattern, options), debug);
    let after = parsed(with_options(pattern, options.push(option)), debug);
    match read_options(options) {
        Ok(o) => {
            lemma_changed(pattern, options, option, debug, without_party(o, third));
            if before is Ok {
                let r = before->Ok_0;
                let r2 = after->Ok_0;
                lemma_party_masks(r, r2, o, is_marked(pattern), anchors(r.mask), third);
                lemma_party_rules(r, r2, third, request);
            }
        },
        Err(_) => {
            lemma_one_more(pattern, options, option, debug);
        },
    }
}

/// An option that asks for requests within the domain of their source leaves out the
/// requests that are known to leave it, and no others: `first-party`, `1p`,
/// `~third-party` and `~3p`.
pub proof fn options_for_the_first_party(
    pattern: Seq<char>,
    options: Seq<Seq<char>>,
    option: Seq<char>,
    debug: bool,
    request: RequestModel,
)
    requires
        is_pattern(pattern),
        are_options(options),
        option == "first-party"@ || option == "1p"@ || option == seq!['~'] + "third-party"@
            || option == seq!['~'] + "3p"@,
    ensures
        line_matches(with_options(pattern, options.push(option)), debug, request) <==> {
            &&& line_matches(with_options(pattern, options), debug, request)
            &&& request.third_party != Some(true)
        },
{
    lemma_first_party();
    lemma_one_p();
    lemma_third_party();
    lemma_three_p();
    lemma_party_options();
    reveal(parsed);
    reveal(read_one);
    reveal(rule_applies);
    lemma_party(pattern, options, option, debug, request, true);
}

/// An option that asks for requests that leave the domain of their source leaves out the
/// requests that are known to stay in it, and no others: `third-party`, `3p`,
/// `~first-party` and `~1p`.
pub proof fn options_for_the_third_party(
    pattern: Seq<char>,
    options: Seq<Seq<char>>,
    option: Seq<char>,
    debug: bool,
    request: RequestModel,
)
    requires
        is_pattern(pattern),
        are_options(options),
        option == "third-party"@ || option == "3p"@ || option == seq!['~'] + "first-party"@
            || option == seq!['~'] + "1p"@,
    ensures
        line_matches(with_options(pattern, options.push(option)), debug, request) <==> {
            &&& line_matches(with_options(pattern, options), debug, request)
            &&& request.third_party != Some(false)
        },
{
    lemma_first_party();
    lemma_one_p();
    lemma_third_party();
    lemma_three_p();
    lemma_party_options();
    reveal(parsed);
    reveal(read_one);
    reveal(rule_applies);
    lemma_party(pattern, options, option, debug, request, false);
}

proof fn lemma_party_options()
    ensures
        forall|o: OptionsModel, n: bool, v: Seq<char>| #[trigger]
            apply_named(o, n, "first-party"@, v) == Ok::<OptionsModel, NetworkFilterError>(
                without_party(o, !n),
            ),
        forall|o: OptionsModel, n: bool, v: Seq<char>| #[trigger]
            apply_named(o, n, "1p"@, v) == Ok::<OptionsModel, NetworkFilterError>(
                without_party(o, !n),
            ),
        forall|o: OptionsModel, n: bool, v: Seq<char>| #[trigger]
            apply_named(o, n, "third-party"@, v) == Ok::<OptionsModel, NetworkFilterError>(
                without_party(o, n),
            ),
        forall|o: OptionsModel, n: bool, v: Seq<char>| #[trigger]
            apply_named(o, n, "3p"@, v) == Ok::<OptionsModel, NetworkFilterError>(
                without_party(o, n),
            ),
{
    lemma_names_differ();
}

/// A line for the first party is one that is not for the third, and the other way round.
pub proof fn parties_are_opposites(
    pattern: Seq<char>,
    options: Seq<Seq<char>>,
    debug: bool,
    request: RequestModel,
)
    requires
        is_pattern(pattern),
        are_options(options),
    ensures
        line_matches(with_options(pattern, options.push("first-party"@)), debug, request)
            == line_matches(
            with_options(pattern, options.push(seq!['~'] + "third-party"@)),
            debug,
            request,
        ),
        line_matches(with_options(pattern, options.push("third-party"@)), debug, request)
            == line_matches(
            with_options(pattern, options.push(seq!['~'] + "first-party"@)),
            debug,
            request,
        ),
        line_matches(with_options(pattern, options), debug, request) == (line_matches(
            with_options(pattern, options.push("first-party"@)),
            debug,
            request,
        ) || line_matches(
            with_options(pattern, options.push("third-party"@)),
            debug,
            request,
        )),
{
    options_for_the_first_party(pattern, options, "first-party"@, debug, request);
    options_for_the_first_party(pattern, options, seq!['~'] + "third-party"@, debug, request);
    options_for_the_third_party(pattern, options, "third-party"@, debug, request);
    options_for_the_third_party(pattern, options, seq!['~'] + "first-party"@, debug, request);
}

/// A rule that was made important.
pub open spec fn made_important(rule: NetworkRule) -> NetworkRule {
    NetworkRule { mask: FilterMask { important: true, ..rule.mask }, ..rule }
}

/// A rule that takes others out of the list.
pub open spec fn made_bad(rule: NetworkRule) -> NetworkRule {
    NetworkRule { mask: FilterMask { bad_filter: true, ..rule.mask }, ..rule }
}

/// A rule that redirects what it blocks, or with `only` what others block.
pub open spec fn made_to_redirect(rule: NetworkRule, to: Seq<char>, only: bool) -> NetworkRule {
    NetworkRule {
        mask: FilterMask { redirect_only: only, ..rule.mask },
        redirect: Some(to),
        ..rule
    }
}

/// The option `important` makes the rule of a line important, and the option `badfilter`
/// makes it one against rules; in all else the rule is as it would be.
pub proof fn flag_options(pattern: Seq<char>, options: Seq<Seq<char>>)
    requires
        is_pattern(pattern),
        are_options(options),
    ensures
        match parse_rule(with_options(pattern, options), false) {
            Ok(rule) => {
                &&& parse_rule(with_options(pattern, options.push("important"@)), false) == Ok::<
                    NetworkRule,
                    NetworkFilterError,
                >(made_important(rule))
                &&& parse_rule(with_options(pattern, options.push("badfilter"@)), false) == Ok::<
                    NetworkRule,
                    NetworkFilterError,
                >(made_bad(rule))
            },
            Err(_) => {
                &&& parse_rule(with_options(pattern, options.push("important"@)), false) is Err
                &&& parse_rule(with_options(pattern, options.push("badfilter"@)), false) is Err
            },
        },
{
    lemma_important();
    lemma_badfilter();
    lemma_names_differ();
    reveal(parsed);
    lemma_flag_option(pattern, options, "important"@);
    lemma_flag_option(pattern, options, "badfilter"@);
}

#[verifier::rlimit(50)]
proof fn lemma_flag_option(pattern: Seq<char>, options: Seq<Seq<char>>, option: Seq<char>)
    requires
        is_pattern(pattern),
        are_options(options),
        is_option(option),
        option == "important"@ || option == "badfilter"@,
        option_parts(option) == (false, option, Seq::<char>::empty()),
    ensures
        match parsed(with_options(pattern, options), false) {
            Ok(rule) => parsed(with_options(pattern, options.push(option)), false) == Ok::<
                NetworkRule,
                NetworkFilterError,
            >(
                if option == "important"@ {
                    made_important(rule)
                } else {
                    made_bad(rule)
                },
            ),
            Err(_) => parsed(with_options(pattern, options.push(option)), false) is Err,
        },
{
    lemma_names_differ();
    reveal(read_one);
    reveal(same_but_kinds);
    match read_options(options) {
        Ok(o) => {
            let o2 = if option == "important"@ {
                OptionsModel { mask: FilterMask { important: true, ..o.mask }, ..o }
            } else {
                OptionsModel { mask: FilterMask { bad_filter: true, ..o.mask }, ..o }
            };
            lemma_changed(pattern, options, option, false, o2);
            lemma_raw_lines(pattern, options);
            lemma_raw_lines(pattern, options.push(option));
        },
        Err(_) => {
            lemma_one_more(pattern, options, option, false);
        },
    }
}

proof fn lemma_raw_lines(pattern: Seq<char>, options: Seq<Seq<char>>)
    ensures
        parsed(with_options(pattern, options), false) matches Ok(r) ==> r.raw_line is None,
{
    reveal(parsed);
}

/// An entry in the list of a domain option.
pub open spec fn is_entry(e: Seq<char>) -> bool {
    &&& e.len() > 0
    &&& !e.contains('|') && !e.contains(',') && !e.contains('$')
    &&& !is_space(e.last()) && e.last() != '/'
}

/// The text of a domain option: a name, `=`, and the entries with `|` between them.
pub open spec fn domain_option(name: Seq<char>, entries: Seq<Seq<char>>) -> Seq<char> {
    name + seq!['='] + join(entries, seq!['|'])
}

/// Options without a value.
pub open spec fn without_values(options: Seq<Seq<char>>) -> bool {
    forall|i: int| 0 <= i < options.len() ==> !(#[trigger] options[i]).contains('=')
}

/// A source passes the entries of a domain option: it is not known, or it is at or under
/// an entry without `~`, where there are any, and at or under no entry with one.
pub open spec fn passes(source: Seq<char>, entries: Seq<Seq<char>>) -> bool {
    ||| source.len() == 0
    ||| {
        &&& (exists|i: int| 0 <= i < entries.len() && (#[trigger] entries[i])[0] != '~')
            ==> exists|i: int|
            0 <= i < entries.len() && (#[trigger] entries[i])[0] != '~' && at_or_under(
                source,
                lower(entries[i]),
            )
        &&& forall|i: int|
            0 <= i < entries.len() && (#[trigger] entries[i])[0] == '~' && entries[i].len() > 1
                ==> !at_or_under(source, lower(entries[i].skip(1)))
    }
}

proof fn lemma_joined_entries(entries: Seq<Seq<char>>)
    requires
        entries.len() > 0,
        forall|i: int| 0 <= i < entries.len() ==> is_entry(#[trigger] entries[i]),
    ensures
        !join(entries, seq!['|']).contains('$'),
        !join(entries, seq!['|']).contains(','),
        join(entries, seq!['|']).len() > 0,
        join(entries, seq!['|']).last() == entries.last().last(),
    decreases entries.len(),
{
    let all = join(entries, seq!['|']);
    assert(is_entry(entries[entries.len() - 1]));
    if entries.len() > 1 {
        let front = entries.drop_last();
        assert forall|i: int| 0 <= i < front.len() implies is_entry(#[trigger] front[i]) by {
            assert(front[i] == entries[i]);
        }
        lemma_joined_entries(front);
        let head = join(front, seq!['|']);
        assert(all == head + seq!['|'] + entries.last());
        assert forall|c: char| (c == '$' || c == ',') implies !(#[trigger] all.contains(c)) by {
            if all.contains(c) {
                let i = choose|i: int| 0 <= i < all.len() && all[i] == c;
                if i < head.len() {
                    assert(head[i] == c);
                } else if i > head.len() {
                    assert(entries.last()[i - head.len() - 1] == c);
                }
            }
        }
        assert(!all.contains('$') && !all.contains(','));
    }
}

/// An option with a value, taken apart.
proof fn lemma_valued_option(name: Seq<char>, value: Seq<char>)
    requires
        is_option(name),
        !name.contains('='),
        name[0] != '~',
        !value.contains('$'),
        !value.contains(','),
        value.len() > 0,
        !is_space(value.last()) && value.last() != '/',
    ensures
        is_option(name + seq!['='] + value),
        option_parts(name + seq!['='] + value) == (false, name, value),
{
    let s = name + seq!['='] + value;
    let n = name.len() as int;
    assert forall|c: char| (c == '$' || c == ',') implies !(#[trigger] s.contains(c)) by {
        if s.contains(c) {
            let i = choose|i: int| 0 <= i < s.len() && s[i] == c;
            if i < n {
                assert(name[i] == c);
            } else if i > n {
                assert(value[i - n - 1] == c);
            }
        }
    }
    assert(!s.contains('$') && !s.contains(','));
    assert(s[0] == name[0]);
    assert(s[n] == '=');
    s.index_of_first_ensures('=');
    let i = s.index_of_first('=')->0;
    if i < n {
        assert(name[i] == '=');
    }
    if i > n {
        assert(s[n] != '=');
    }
    assert(s.take(n) =~= name);
    assert(s.skip(n + 1) =~= value);
}

/// Options without a value ask for no domain and rule none out.
proof fn lemma_without_values(options: Seq<Seq<char>>)
    requires
        without_values(options),
    ensures
        read_options(options) matches Ok(o) ==> o.domains.len() == 0 && o.not_domains.len() == 0,
    decreases options.len(),
{
    reveal(read_options);
    if options.len() > 0 {
        let front = options.drop_last();
        let last = options.last();
        assert forall|i: int| 0 <= i < front.len() implies !(#[trigger] front[i]).contains('=') by {
            assert(front[i] == options[i]);
        }
        assert(!options[options.len() - 1].contains('='));
        lemma_without_values(front);
        assert(front.push(last) =~= options);
        lemma_apply_one_more(no_options(), front, last);
        let body = if last.len() > 0 && last[0] == '~' {
            last.skip(1)
        } else {
            last
        };
        if body.contains('=') {
            let i = choose|i: int| 0 <= i < body.len() && body[i] == '=';
            if last.len() > 0 && last[0] == '~' {
                assert(last[i + 1] == '=');
            } else {
                assert(last[i] == '=');
            }
        }
        body.index_of_first_ensures('=');
        let none = Seq::<char>::empty();
        assert(option_parts(last).2 == none);
        lemma_no_entries();
        if apply_options(no_options(), front) is Ok {
            let o = apply_options(no_options(), front)->Ok_0;
            lemma_named_domains(o, option_parts(last).0, option_parts(last).1);
        }
    }
}

proof fn lemma_no_entries()
    ensures
        split(Seq::<char>::empty(), '|').filter_map(|e: Seq<char>| wanted_domain(e)).len() == 0,
        split(Seq::<char>::empty(), '|').filter_map(|e: Seq<char>| unwanted_domain(e)).len() == 0,
{
    let none = Seq::<char>::empty();
    joined_texts_are_split(seq![none], '|');
    assert(seq![none].drop_last() =~= Seq::<Seq<char>>::empty());
    assert(join(seq![none], seq!['|']) =~= none);
    let list = split(none, '|');
    assert(list =~= seq![none]);
    let f = |e: Seq<char>| wanted_domain(e);
    let g = |e: Seq<char>| unwanted_domain(e);
    if list.filter_map(f).len() > 0 {
        let y = list.filter_map(f)[0];
        assert(list.filter_map(f).contains(y));
        lemma_filter_map_contains(list, f, y);
    }
    if list.filter_map(g).len() > 0 {
        let y = list.filter_map(g)[0];
        assert(list.filter_map(g).contains(y));
        lemma_filter_map_contains(list, g, y);
    }
}

proof fn lemma_named_domains(o: OptionsModel, negated: bool, name: Seq<char>)
    requires
        o.domains.len() == 0 && o.not_domains.len() == 0,
        split(Seq::<char>::empty(), '|').filter_map(|e: Seq<char>| wanted_domain(e)).len() == 0,
        split(Seq::<char>::empty(), '|').filter_map(|e: Seq<char>| unwanted_domain(e)).len() == 0,
    ensures
        apply_named(o, negated, name, Seq::empty()) matches Ok(r) ==> r.domains.len() == 0
            && r.not_domains.len() == 0,
{
}

#[verifier::rlimit(50)]
proof fn lemma_wanted(source: Seq<char>, entries: Seq<Seq<char>>, wanted: Seq<Seq<char>>)
    requires
        wanted == entries.filter_map(|e: Seq<char>| wanted_domain(e)),
        forall|i: int| 0 <= i < entries.len() ==> is_entry(#[trigger] entries[i]),
    ensures
        wanted.len() == 0 <==> !(exists|i: int|
            0 <= i < entries.len() && (#[trigger] entries[i])[0] != '~'),
        (exists|i: int| 0 <= i < wanted.len() && at_or_under(source, #[trigger] wanted[i]))
            <==> exists|i: int|
            0 <= i < entries.len() && (#[trigger] entries[i])[0] != '~' && at_or_under(
                source,
                lower(entries[i]),
            ),
{
    let f = |e: Seq<char>| wanted_domain(e);
    assert forall|i: int| 0 <= i < wanted.len() implies exists|k: int|
        0 <= k < entries.len() && (#[trigger] entries[k])[0] != '~' && lower(entries[k])
            == #[trigger] wanted[i] by {
        lemma_filter_map_contains(entries, f, wanted[i]);
        assert(wanted.contains(wanted[i]));
        let k = choose|k: int|
            0 <= k < entries.len() && f(#[trigger] entries[k]) == Some(wanted[i]);
        assert(entries[k][0] != '~' && lower(entries[k]) == wanted[i]);
    }
    assert forall|k: int| 0 <= k < entries.len() && (#[trigger] entries[k])[0] != '~' implies exists|
        i: int,
    | 0 <= i < wanted.len() && #[trigger] wanted[i] == lower(entries[k]) by {
        assert(is_entry(entries[k]));
        assert(f(entries[k]) == Some(lower(entries[k])));
        lemma_filter_map_contains(entries, f, lower(entries[k]));
        assert(wanted.contains(lower(entries[k])));
    }
    if exists|i: int| 0 <= i < wanted.len() && at_or_under(source, #[trigger] wanted[i]) {
        let i = choose|i: int| 0 <= i < wanted.len() && at_or_under(source, #[trigger] wanted[i]);
        let k = choose|k: int|
            0 <= k < entries.len() && (#[trigger] entries[k])[0] != '~' && lower(entries[k])
                == wanted[i];
        assert(at_or_under(source, lower(entries[k])));
    }
    if exists|k: int|
        0 <= k < entries.len() && (#[trigger] entries[k])[0] != '~' && at_or_under(
            source,
            lower(entries[k]),
        ) {
        let k = choose|k: int|
            0 <= k < entries.len() && (#[trigger] entries[k])[0] != '~' && at_or_under(
                source,
                lower(entries[k]),
            );
        let i = choose|i: int| 0 <= i < wanted.len() && #[trigger] wanted[i] == lower(entries[k]);
        assert(at_or_under(source, wanted[i]));
    }
    if wanted.len() > 0 {
        assert(wanted[0] == wanted[0]);
    }
}

#[verifier::rlimit(50)]
proof fn lemma_unwanted(source: Seq<char>, entries: Seq<Seq<char>>, unwanted: Seq<Seq<char>>)
    requires
        unwanted == entries.filter_map(|e: Seq<char>| unwanted_domain(e)),
    ensures
        (forall|i: int| 0 <= i < unwanted.len() ==> !at_or_under(source, #[trigger] unwanted[i]))
            <==> forall|i: int|
            0 <= i < entries.len() && (#[trigger] entries[i])[0] == '~' && entries[i].len() > 1
                ==> !at_or_under(source, lower(entries[i].skip(1))),
{
    let f = |e: Seq<char>| unwanted_domain(e);
    assert forall|i: int| 0 <= i < unwanted.len() implies exists|k: int|
        0 <= k < entries.len() && (#[trigger] entries[k])[0] == '~' && entries[k].len() > 1
            && lower(entries[k].skip(1)) == #[trigger] unwanted[i] by {
        lemma_filter_map_contains(entries, f, unwanted[i]);
        assert(unwanted.contains(unwanted[i]));
        let k = choose|k: int|
            0 <= k < entries.len() && f(#[trigger] entries[k]) == Some(unwanted[i]);
        assert(entries[k][0] == '~' && lower(entries[k].skip(1)) == unwanted[i]);
    }
    assert forall|k: int|
        0 <= k < entries.len() && (#[trigger] entries[k])[0] == '~' && entries[k].len()
            > 1 implies exists|i: int|
        0 <= i < unwanted.len() && #[trigger] unwanted[i] == lower(entries[k].skip(1)) by {
        assert(f(entries[k]) == Some(lower(entries[k].skip(1))));
        lemma_filter_map_contains(entries, f, lower(entries[k].skip(1)));
        assert(unwanted.contains(lower(entries[k].skip(1))));
    }
    if forall|i: int| 0 <= i < unwanted.len() ==> !at_or_under(source, #[trigger] unwanted[i]) {
        assert forall|k: int|
            0 <= k < entries.len() && (#[trigger] entries[k])[0] == '~' && entries[k].len()
                > 1 implies !at_or_under(source, lower(entries[k].skip(1))) by {
            let i = choose|i: int|
                0 <= i < unwanted.len() && #[trigger] unwanted[i] == lower(entries[k].skip(1));
            assert(!at_or_under(source, unwanted[i]));
        }
    }
    if forall|k: int|
        0 <= k < entries.len() && (#[trigger] entries[k])[0] == '~' && entries[k].len() > 1
            ==> !at_or_under(source, lower(entries[k].skip(1))) {
        assert forall|i: int| 0 <= i < unwanted.len() implies !at_or_under(
            source,
            #[trigger] unwanted[i],
        ) by {
            let k = choose|k: int|
                0 <= k < entries.len() && (#[trigger] entries[k])[0] == '~' && entries[k].len() > 1
                    && lower(entries[k].skip(1)) == unwanted[i];
            assert(!at_or_under(source, lower(entries[k].skip(1))));
        }
    }
}

/// Options with the domains of more entries.
spec fn with_entries(o: OptionsModel, entries: Seq<Seq<char>>) -> OptionsModel {
    OptionsModel {
        domains: o.domains + entries.filter_map(|e: Seq<char>| wanted_domain(e)),
        not_domains: o.not_domains + entries.filter_map(|e: Seq<char>| unwanted_domain(e)),
        ..o
    }
}

#[verifier::rlimit(50)]
proof fn lemma_domain_option(o: OptionsModel, name: Seq<char>, entries: Seq<Seq<char>>)
    requires
        name == "domain"@ || name == "from"@,
        entries.len() > 0,
        forall|i: int| 0 <= i < entries.len() ==> is_entry(#[trigger] entries[i]),
    ensures
        is_option(domain_option(name, entries)),
        read_one(o, domain_option(name, entries)) == Ok::<OptionsModel, NetworkFilterError>(
            with_entries(o, entries),
        ),
{
    reveal(read_one);
    lemma_domain();
    lemma_from();
    let value = join(entries, seq!['|']);
    lemma_joined_entries(entries);
    assert(is_entry(entries[entries.len() - 1]));
    assert(!name.contains('=') && name[0] != '~') by {
        reveal_strlit("domain");
        reveal_strlit("from");
    }
    lemma_valued_option(name, value);
    joined_texts_are_split(entries, '|');
}

/// A domain option leaves out the requests whose source does not pass its entries, and no
/// others, however many entries there are and at whatever place each stands.
pub proof fn domain_options(
    pattern: Seq<char>,
    options: Seq<Seq<char>>,
    name: Seq<char>,
    entries: Seq<Seq<char>>,
    debug: bool,
    request: RequestModel,
)
    requires
        is_pattern(pattern),
        are_options(options),
        without_values(options),
        name == "domain"@ || name == "from"@,
        entries.len() > 0,
        forall|i: int| 0 <= i < entries.len() ==> is_entry(#[trigger] entries[i]),
    ensures
        line_matches(
            with_options(pattern, options.push(domain_option(name, entries))),
            debug,
            request,
        ) <==> {
            &&& line_matches(with_options(pattern, options), debug, request)
            &&& passes(request.source_hostname, entries)
        },
{
    let option = domain_option(name, entries);
    let before = parsed(with_options(pattern, options), debug);
    let after = parsed(with_options(pattern, options.push(option)), debug);
    lemma_domain_option(no_options(), name, entries);
    lemma_without_values(options);
    match read_options(options) {
        Ok(o) => {
            lemma_domain_option(o, name, entries);
            lemma_changed(pattern, options, option, debug, with_entries(o, entries));
            if before is Ok {
                lemma_entry_masks(
                    before->Ok_0,
                    after->Ok_0,
                    o,
                    with_entries(o, entries),
                    is_marked(pattern),
                    anchors(before->Ok_0.mask),
                );
                assert(o.domains =~= Seq::empty() && o.not_domains =~= Seq::empty());
                assert(with_entries(o, entries).domains =~= entries.filter_map(
                    |e: Seq<char>| wanted_domain(e),
                ));
                assert(with_entries(o, entries).not_domains =~= entries.filter_map(
                    |e: Seq<char>| unwanted_domain(e),
                ));
                lemma_entry_rules(before->Ok_0, after->Ok_0, entries, request);
            }
        },
        Err(_) => {
            lemma_one_more(pattern, options, option, debug);
        },
    }
    lemma_lines(with_options(pattern, options), debug, request);
    lemma_lines(with_options(pattern, options.push(option)), debug, request);
}

proof fn lemma_lines(line: Seq<char>, debug: bool, request: RequestModel)
    ensures
        line_matches(line, debug, request) == applies(parsed(line, debug), request),
{
    reveal(parsed);
    reveal(rule_applies);
}

proof fn lemma_entry_masks(
    r: NetworkRule,
    r2: NetworkRule,
    o: OptionsModel,
    o2: OptionsModel,
    exception: bool,
    a: (bool, bool, bool, bool),
)
    requires
        same_but_kinds(r, o, exception, a),
        same_but_kinds(r2, o2, exception, a),
        o2.mask == o.mask,
        r2.mask.kinds == r.mask.kinds,
    ensures
        r2.mask == r.mask,
{
    reveal(same_but_kinds);
}

#[verifier::rlimit(50)]
proof fn lemma_entry_rules(
    r: NetworkRule,
    r2: NetworkRule,
    entries: Seq<Seq<char>>,
    request: RequestModel,
)
    requires
        r2.mask == r.mask,
        r2.patterns == r.patterns,
        r.domains == Seq::<Seq<char>>::empty(),
        r.not_domains == Seq::<Seq<char>>::empty(),
        r2.domains == entries.filter_map(|e: Seq<char>| wanted_domain(e)),
        r2.not_domains == entries.filter_map(|e: Seq<char>| unwanted_domain(e)),
        forall|i: int| 0 <= i < entries.len() ==> is_entry(#[trigger] entries[i]),
    ensures
        rule_applies(r2, request) <==> rule_applies(r, request) && passes(
            request.source_hostname,
            entries,
        ),
{
    let source = request.source_hostname;
    let free = NetworkRule { domains: Seq::empty(), not_domains: Seq::empty(), ..r2 };
    lemma_wanted(source, entries, r2.domains);
    lemma_unwanted(source, entries, r2.not_domains);
    assert(rule_applies(r2, request) <==> {
        &&& rule_applies(free, request)
        &&& source.len() == 0 || r2.domains.len() == 0 || exists|i: int|
            0 <= i < r2.domains.len() && at_or_under(source, #[trigger] r2.domains[i])
        &&& source.len() == 0 || forall|i: int|
            0 <= i < r2.not_domains.len() ==> !at_or_under(source, #[trigger] r2.not_domains[i])
    }) by {
        reveal(rule_applies);
        domains_restrict_a_rule(r2, request);
    }
    assert(rule_applies(free, request) == rule_applies(r, request)) by {
        reveal(rule_applies);
        lemma_same_matching(free, r, request);
    }
}

/// A line that rules domains out by `domain=~..|~..` or by `from=` does not apply to a
/// request whose source is one of them or lies under one, at whatever place it stands.
pub proof fn ruled_out_sources(
    pattern: Seq<char>,
    options: Seq<Seq<char>>,
    name: Seq<char>,
    domains: Seq<Seq<char>>,
    i: int,
    debug: bool,
    request: RequestModel,
)
    requires
        is_pattern(pattern),
        are_options(options),
        without_values(options),
        name == "domain"@ || name == "from"@,
        0 <= i < domains.len(),
        forall|k: int| 0 <= k < domains.len() ==> is_entry(#[trigger] domains[k]),
        request.source_hostname.len() > 0,
        at_or_under(request.source_hostname, lower(domains[i])),
    ensures
        !line_matches(
            with_options(
                pattern,
                options.push(
                    domain_option(name, domains.map_values(|d: Seq<char>| seq!['~'] + d)),
                ),
            ),
            debug,
            request,
        ),
{
    let entries = domains.map_values(|d: Seq<char>| seq!['~'] + d);
    assert forall|k: int| 0 <= k < entries.len() implies is_entry(#[trigger] entries[k]) by {
        let d = domains[k];
        let e = seq!['~'] + d;
        assert(entries[k] == e);
        assert(is_entry(d));
        assert(e.last() == d.last());
        assert forall|c: char| (c == '$' || c == ',' || c == '|') implies !(#[trigger] e.contains(
            c,
        )) by {
            if e.contains(c) {
                let j = choose|j: int| 0 <= j < e.len() && e[j] == c;
                if j > 0 {
                    assert(d[j - 1] == c);
                }
            }
        }
        assert(!e.contains('$') && !e.contains(',') && !e.contains('|'));
    }
    domain_options(pattern, options, name, entries, debug, request);
    assert(is_entry(domains[i]));
    assert(entries[i] == seq!['~'] + domains[i]);
    assert(entries[i].skip(1) =~= domains[i]);
    assert(entries[i][0] == '~');
    assert(entries[i].len() > 1);
}

/// The order of the entries of a domain option does not count, nor does one that stands
/// there twice.
pub proof fn order_of_domains(
    pattern: Seq<char>,
    options: Seq<Seq<char>>,
    name: Seq<char>,
    entries: Seq<Seq<char>>,
    others: Seq<Seq<char>>,
    debug: bool,
    request: RequestModel,
)
    requires
        is_pattern(pattern),
        are_options(options),
        without_values(options),
        name == "domain"@ || name == "from"@,
        entries.len() > 0,
        forall|i: int| 0 <= i < entries.len() ==> is_entry(#[trigger] entries[i]),
        forall|e: Seq<char>| #[trigger] entries.contains(e) <==> others.contains(e),
    ensures
        line_matches(
            with_options(pattern, options.push(domain_option(name, entries))),
            debug,
            request,
        ) == line_matches(
            with_options(pattern, options.push(domain_option(name, others))),
            debug,
            request,
        ),
{
    assert(entries.contains(entries[0]));
    let first = choose|i: int| 0 <= i < others.len() && others[i] == entries[0];
    assert(others.len() > 0);
    assert forall|i: int| 0 <= i < others.len() implies is_entry(#[trigger] others[i]) by {
        assert(others.contains(others[i]));
        assert(entries.contains(others[i]));
    }
    domain_options(pattern, options, name, entries, debug, request);
    domain_options(pattern, options, name, others, debug, request);
    lemma_same_entries(request.source_hostname, entries, others);
    assert forall|e: Seq<char>| #[trigger] others.contains(e) implies entries.contains(e) by {
        assert(entries.contains(e) <==> others.contains(e));
    }
    lemma_same_entries(request.source_hostname, others, entries);
}

proof fn lemma_same_entries(source: Seq<char>, a: Seq<Seq<char>>, b: Seq<Seq<char>>)
    requires
        forall|e: Seq<char>| #[trigger] a.contains(e) ==> b.contains(e),
        forall|e: Seq<char>| #[trigger] b.contains(e) ==> a.contains(e),
    ensures
        passes(source, a) ==> passes(source, b),
{
    if source.len() > 0 && passes(source, a) {
        if exists|i: int| 0 <= i < b.len() && (#[trigger] b[i])[0] != '~' {
            let i = choose|i: int| 0 <= i < b.len() && (#[trigger] b[i])[0] != '~';
            assert(b.contains(b[i]));
            let k = choose|k: int| 0 <= k < a.len() && a[k] == b[i];
            assert(a[k][0] != '~');
            let m = choose|m: int|
                0 <= m < a.len() && (#[trigger] a[m])[0] != '~' && at_or_under(source, lower(a[m]));
            assert(a.contains(a[m]));
            let n = choose|n: int| 0 <= n < b.len() && b[n] == a[m];
            assert(b[n][0] != '~' && at_or_under(source, lower(b[n])));
        }
        assert forall|i: int|
            0 <= i < b.len() && (#[trigger] b[i])[0] == '~' && b[i].len() > 1 implies !at_or_under(
            source,
            lower(b[i].skip(1)),
        ) by {
            assert(b.contains(b[i]));
            let k = choose|k: int| 0 <= k < a.len() && a[k] == b[i];
            assert(a[k][0] == '~' && a[k].len() > 1);
        }
    }
}

/// A name among the options stands for a kind of request; `all` stands for each.
pub open spec fn names_kind(name: Seq<char>, kind: RequestType) -> bool {
    ||| kind is Image && name == "image"@
    ||| kind is Media && name == "media"@
    ||| kind is Object && (name == "object"@ || name == "object-subrequest"@)
    ||| kind is Other && name == "other"@
    ||| kind is Ping && (name == "ping"@ || name == "beacon"@)
    ||| kind is Script && name == "script"@
    ||| kind is Stylesheet && (name == "stylesheet"@ || name == "css"@)
    ||| kind is Subdocument && (name == "subdocument"@ || name == "frame"@)
    ||| kind is Xmlhttprequest && (name == "xmlhttprequest"@ || name == "xhr"@)
    ||| kind is Websocket && name == "websocket"@
    ||| kind is Font && name == "font"@
    ||| kind is Document && (name == "document"@ || name == "doc"@)
    ||| !(kind is Csp) && name == "all"@
}

/// An option asks for a kind of request.
pub open spec fn asks_for(option: Seq<char>, kind: RequestType) -> bool {
    names_kind(option, kind)
}

/// An option rules a kind of request out.
pub open spec fn rules_out(option: Seq<char>, kind: RequestType) -> bool {
    &&& option.len() > 0 && option[0] == '~'
    &&& !(kind is Document)
    &&& option.skip(1) != "all"@
    &&& names_kind(option.skip(1), kind)
}

/// An option about kinds of request.
pub open spec fn is_kind_option(option: Seq<char>) -> bool {
    exists|kind: RequestType| #[trigger] asks_for(option, kind) || rules_out(option, kind)
}

/// Options ask for a kind of request.
pub open spec fn some_asks(options: Seq<Seq<char>>, kind: RequestType) -> bool {
    exists|i: int| 0 <= i < options.len() && asks_for(#[trigger] options[i], kind)
}

/// Options rule a kind of request out.
pub open spec fn some_rules_out(options: Seq<Seq<char>>, kind: RequestType) -> bool {
    exists|i: int| 0 <= i < options.len() && rules_out(#[trigger] options[i], kind)
}

/// Options ask for some kind of request.
pub open spec fn some_kind_is_asked(options: Seq<Seq<char>>) -> bool {
    exists|kind: RequestType| #[trigger] some_asks(options, kind)
}

#[verifier::rlimit(50)]
proof fn lemma_kind_texts(name: Seq<char>, kind: RequestType)
    requires
        names_kind(name, kind),
    ensures
        is_option(name),
        is_option(seq!['~'] + name),
        name.len() > 0 && name[0] != '~',
        option_parts(name) == (false, name, Seq::<char>::empty()),
        option_parts(seq!['~'] + name) == (true, name, Seq::<char>::empty()),
{
    lemma_image();
    lemma_media();
    lemma_object();
    lemma_object_subrequest();
    lemma_other();
    lemma_ping();
    lemma_beacon();
    lemma_script();
    lemma_stylesheet();
    lemma_css();
    lemma_subdocument();
    lemma_frame();
    lemma_xmlhttprequest();
    lemma_xhr();
    lemma_websocket();
    lemma_font();
    lemma_document();
    lemma_doc();
    lemma_all();
    assert(option_parts(name).0 == (name.len() > 0 && name[0] == '~'));
}

/// Options with one more kind that is asked for, or ruled out.
spec fn with_kind(o: OptionsModel, kind: RequestType, negated: bool) -> OptionsModel {
    if negated {
        OptionsModel { dropped: o.dropped.with(kind), ..o }
    } else {
        OptionsModel { listed: o.listed.with(kind), ..o }
    }
}

#[verifier::rlimit(50)]
proof fn lemma_kind_name(o: OptionsModel, negated: bool, name: Seq<char>, kind: RequestType)
    requires
        names_kind(name, kind),
        name != "all"@,
        negated ==> !(kind is Document),
    ensures
        apply_named(o, negated, name, Seq::empty()) == Ok::<OptionsModel, NetworkFilterError>(
            with_kind(o, kind, negated),
        ),
{
    lemma_names_differ();
}

proof fn lemma_all_kinds(o: OptionsModel)
    ensures
        apply_named(o, false, "all"@, Seq::empty()) == Ok::<OptionsModel, NetworkFilterError>(
            OptionsModel { listed: KindSet::uniform(true, true), ..o },
        ),
{
    lemma_names_differ();
}

/// Options say of kinds what is asked for and ruled out, and nothing else.
spec fn are_of_kinds(o: OptionsModel, options: Seq<Seq<char>>) -> bool {
    &&& o.mask == default_mask()
    &&& o.domains == no_options().domains && o.not_domains == no_options().not_domains
    &&& o.redirect is None && o.csp is None && o.tag is None
    &&& forall|kind: RequestType| #[trigger] o.listed.has(kind) == some_asks(options, kind)
    &&& forall|kind: RequestType| #[trigger] o.dropped.has(kind) == some_rules_out(options, kind)
}

proof fn lemma_some_pushed(options: Seq<Seq<char>>, option: Seq<char>, kind: RequestType)
    ensures
        some_asks(options.push(option), kind) == (some_asks(options, kind) || asks_for(option, kind)),
        some_rules_out(options.push(option), kind) == (some_rules_out(options, kind) || rules_out(
            option,
            kind,
        )),
{
    let all = options.push(option);
    assert(all[options.len() as int] == option);
    assert forall|i: int| 0 <= i < options.len() implies #[trigger] options[i] == all[i] by {}
    if some_asks(all, kind) {
        let i = choose|i: int| 0 <= i < all.len() && asks_for(#[trigger] all[i], kind);
        if i < options.len() {
            assert(options[i] == all[i]);
        }
    }
    if some_rules_out(all, kind) {
        let i = choose|i: int| 0 <= i < all.len() && rules_out(#[trigger] all[i], kind);
        if i < options.len() {
            assert(options[i] == all[i]);
        }
    }
}

proof fn lemma_with_has(set: KindSet, kind: RequestType, other: RequestType)
    requires
        !(kind is Csp),
    ensures
        set.with(kind).has(other) == (set.has(other) || other == kind),
        KindSet::uniform(true, true).has(other) == !(other is Csp),
        !KindSet::uniform(false, false).has(other),
{
}

/// A name stands for one kind, but for `all`.
#[verifier::rlimit(50)]
proof fn lemma_one_kind(name: Seq<char>, kind: RequestType, other: RequestType)
    requires
        names_kind(name, kind),
        name != "all"@,
    ensures
        names_kind(name, other) == (other == kind),
{
    lemma_names_differ();
}

#[verifier::rlimit(50)]
proof fn lemma_kind_step(o: OptionsModel, options: Seq<Seq<char>>, option: Seq<char>)
    requires
        are_of_kinds(o, options),
        is_kind_option(option),
    ensures
        is_option(option),
        !option.contains('='),
        read_one(o, option) is Ok,
        are_of_kinds(read_one(o, option)->Ok_0, options.push(option)),
{
    reveal(read_one);
    let kind = choose|kind: RequestType| #[trigger]
        asks_for(option, kind) || rules_out(option, kind);
    let negated = !asks_for(option, kind);
    let name = if negated {
        option.skip(1)
    } else {
        option
    };
    lemma_kind_texts(name, kind);
    if negated {
        assert(option =~= seq!['~'] + name);
    }
    lemma_no_equals(name, kind);
    let all = options.push(option);
    if name == "all"@ {
        lemma_all_kinds(o);
    } else {
        lemma_kind_name(o, negated, name, kind);
    }
    let o2 = read_one(o, option)->Ok_0;
    assert forall|other: RequestType| #[trigger] o2.listed.has(other) == some_asks(all, other) by {
        lemma_some_pushed(options, option, other);
        lemma_with_has(o.listed, kind, other);
        assert(o.listed.has(other) == some_asks(options, other));
        if name != "all"@ {
            lemma_one_kind(name, kind, other);
        }
        if negated && asks_for(option, other) {
            lemma_kind_texts(option, other);
        }
    }
    assert forall|other: RequestType| #[trigger] o2.dropped.has(other) == some_rules_out(
        all,
        other,
    ) by {
        lemma_some_pushed(options, option, other);
        lemma_with_has(o.dropped, kind, other);
        assert(o.dropped.has(other) == some_rules_out(options, other));
        if negated {
            lemma_one_kind(name, kind, other);
        }
    }
}

proof fn lemma_no_equals(name: Seq<char>, kind: RequestType)
    requires
        names_kind(name, kind),
    ensures
        !name.contains('='),
        !(seq!['~'] + name).contains('='),
{
    lemma_kind_texts(name, kind);
    name.index_of_first_ensures('=');
    if name.contains('=') {
        let i = name.index_of_first('=')->0;
        assert(name.take(i).len() == i);
        assert(option_parts(name).1.len() == i);
    }
    let s = seq!['~'] + name;
    if s.contains('=') {
        let i = choose|i: int| 0 <= i < s.len() && s[i] == '=';
        assert(name[i - 1] == '=');
    }
}

proof fn lemma_kind_options(options: Seq<Seq<char>>)
    requires
        forall|i: int| 0 <= i < options.len() ==> is_kind_option(#[trigger] options[i]),
    ensures
        are_options(options),
        without_values(options),
        read_options(options) is Ok,
        are_of_kinds(read_options(options)->Ok_0, options),
    decreases options.len(),
{
    reveal(read_options);
    if options.len() == 0 {
        let o = no_options();
        assert(read_options(options) == Ok::<OptionsModel, NetworkFilterError>(o));
        assert forall|kind: RequestType| #[trigger] o.listed.has(kind) == some_asks(
            options,
            kind,
        ) by {}
        assert forall|kind: RequestType| #[trigger] o.dropped.has(kind) == some_rules_out(
            options,
            kind,
        ) by {}
    } else {
        let front = options.drop_last();
        let last = options.last();
        assert forall|i: int| 0 <= i < front.len() implies is_kind_option(#[trigger] front[i]) by {
            assert(front[i] == options[i]);
        }
        lemma_kind_options(front);
        assert(is_kind_option(options[options.len() - 1]));
        assert(front.push(last) =~= options);
        let o = read_options(front)->Ok_0;
        lemma_kind_step(o, front, last);
        assert(read_options(options) == read_one(o, last)) by {
            reveal(read_one);
            lemma_apply_one_more(no_options(), front, last);
        }
        assert forall|i: int| 0 <= i < options.len() implies is_option(#[trigger] options[i]) by {
            if i < front.len() {
                assert(options[i] == front[i]);
            }
        }
        assert forall|i: int| 0 <= i < options.len() implies !(#[trigger] options[i]).contains(
            '=',
        ) by {
            if i < front.len() {
                assert(options[i] == front[i]);
            }
        }
    }
}

/// Options on a pattern with whatever kinds: where the pattern alone applies, for the kinds
/// that the options make.
#[verifier::rlimit(50)]
proof fn lemma_kinds_apply(
    pattern: Seq<char>,
    options: Seq<Seq<char>>,
    debug: bool,
    request: RequestModel,
) -> (plain: bool)
    requires
        is_pattern(pattern),
        forall|i: int| 0 <= i < options.len() ==> is_kind_option(#[trigger] options[i]),
    ensures
        line_matches(with_options(pattern, options), debug, request) == (line_matches(
            pattern,
            debug,
            of_kind(request, RequestType::Other),
        ) && is_for(
            kinds_for(read_options(options)->Ok_0, plain),
            is_marked(pattern),
            request.request_type,
        )),
{
    let none = Seq::<Seq<char>>::empty();
    let base = of_kind(request, RequestType::Other);
    lemma_kind_options(options);
    lemma_kind_options(none);
    lemma_with_options_of(pattern, options, debug);
    lemma_with_options_of(pattern, none, debug);
    let o = read_options(options)->Ok_0;
    let o0 = read_options(none)->Ok_0;
    let l = kept_line(with_options(pattern, options), debug);
    let l0 = kept_line(pattern, debug);
    let m = is_marked(pattern);
    let s = bare(pattern);
    lemma_change(o0, o, m, s, l0, l);
    lemma_lines(pattern, debug, base);
    lemma_lines(with_options(pattern, options), debug, request);
    let before = rule_of(o0, m, s, l0);
    let after = rule_of(o, m, s, l);
    if before is Ok {
        let r0 = before->Ok_0;
        let r = after->Ok_0;
        let plain = choose|plain: bool| #[trigger]
            kinds_for(o0, plain) == r0.mask.kinds && kinds_for(o, plain) == r.mask.kinds;
        lemma_no_kinds(o0, plain);
        lemma_kind_masks(r0, r, o0, o, m, anchors(r0.mask));
        lemma_kind_rules(r0, r, request);
        plain
    } else {
        true
    }
}

proof fn lemma_with_options_of(pattern: Seq<char>, options: Seq<Seq<char>>, debug: bool)
    requires
        is_pattern(pattern),
        are_options(options),
        read_options(options) is Ok,
    ensures
        parsed(with_options(pattern, options), debug) == rule_of(
            read_options(options)->Ok_0,
            is_marked(pattern),
            bare(pattern),
            kept_line(with_options(pattern, options), debug),
        ),
{
    lemma_with_options(pattern, options, debug);
    reveal(read_options);
}

proof fn lemma_no_kinds(o: OptionsModel, plain: bool)
    requires
        are_of_kinds(o, Seq::empty()),
    ensures
        kinds_for(o, plain) == KindSet::uniform(true, plain),
{
    reveal(kinds_for);
    lemma_set_is_empty(o.listed);
    lemma_set_is_empty(o.dropped);
}

proof fn lemma_set_is_empty(set: KindSet)
    ensures
        set == KindSet::uniform(false, false) <==> forall|kind: RequestType| !#[trigger] set.has(
            kind,
        ),
{
    if forall|kind: RequestType| !#[trigger] set.has(kind) {
        assert(!set.has(RequestType::Document));
        assert(!set.has(RequestType::Font));
        assert(!set.has(RequestType::Image));
        assert(!set.has(RequestType::Media));
        assert(!set.has(RequestType::Object));
        assert(!set.has(RequestType::Other));
        assert(!set.has(RequestType::Ping));
        assert(!set.has(RequestType::Script));
        assert(!set.has(RequestType::Stylesheet));
        assert(!set.has(RequestType::Subdocument));
        assert(!set.has(RequestType::Websocket));
        assert(!set.has(RequestType::Xmlhttprequest));
    }
}

proof fn lemma_kind_masks(
    r0: NetworkRule,
    r: NetworkRule,
    o0: OptionsModel,
    o: OptionsModel,
    exception: bool,
    a: (bool, bool, bool, bool),
)
    requires
        same_but_kinds(r0, o0, exception, a),
        same_but_kinds(r, o, exception, a),
        o0.mask == o.mask,
    ensures
        for_every_kind(r0).mask == for_every_kind(r).mask,
        r.mask.exception == exception,
        r0.mask.exception == exception,
{
    reveal(same_but_kinds);
}

proof fn lemma_kind_rules(r0: NetworkRule, r: NetworkRule, request: RequestModel)
    requires
        for_every_kind(r0).mask == for_every_kind(r).mask,
        r0.mask.kinds.other,
        r.patterns == r0.patterns,
        r.domains == r0.domains,
        r.not_domains == r0.not_domains,
    ensures
        rule_applies(r, request) == (rule_applies(r0, of_kind(request, RequestType::Other))
            && is_for(r.mask.kinds, r.mask.exception, request.request_type)),
{
    reveal(rule_applies);
    let base = of_kind(request, RequestType::Other);
    kinds_restrict_a_rule(r, request, RequestType::Other);
    kinds_restrict_a_rule(r0, base, RequestType::Other);
    assert(of_kind(base, RequestType::Other) == base);
    lemma_same_matching(for_every_kind(r0), for_every_kind(r), base);
}

/// Options about kinds restrict a line to the requests of some kinds: those that they ask
/// for, or where they ask for none all but documents, less those that they rule out. An
/// exception applies to documents, too. No line applies to reports on policies.
pub proof fn kind_options(
    pattern: Seq<char>,
    options: Seq<Seq<char>>,
    debug: bool,
    request: RequestModel,
)
    requires
        is_pattern(pattern),
        options.len() > 0,
        forall|i: int| 0 <= i < options.len() ==> is_kind_option(#[trigger] options[i]),
    ensures
        line_matches(with_options(pattern, options), debug, request) <==> {
            let kind = request.request_type;
            &&& line_matches(pattern, debug, of_kind(request, RequestType::Other))
            &&& !(kind is Csp)
            &&& {
                ||| is_marked(pattern) && kind is Document
                ||| !some_rules_out(options, kind) && if some_kind_is_asked(options) {
                    some_asks(options, kind)
                } else {
                    !(kind is Document)
                }
            }
        },
{
    let kind = request.request_type;
    lemma_kind_options(options);
    let plain = lemma_kinds_apply(pattern, options, debug, request);
    let o = read_options(options)->Ok_0;
    lemma_set_is_empty(o.listed);
    lemma_set_is_empty(o.dropped);
    assert(o.listed.has(kind) == some_asks(options, kind));
    assert(o.dropped.has(kind) == some_rules_out(options, kind));
    if some_kind_is_asked(options) {
        let other = choose|other: RequestType| #[trigger] some_asks(options, other);
        assert(o.listed.has(other));
    } else {
        assert forall|other: RequestType| !#[trigger] o.listed.has(other) by {
            assert(!some_asks(options, other));
        }
        assert(is_kind_option(options[0]));
        let other = choose|other: RequestType| #[trigger]
            asks_for(options[0], other) || rules_out(options[0], other);
        if asks_for(options[0], other) {
            assert(some_asks(options, other));
        }
        assert(some_rules_out(options, other));
        assert(o.dropped.has(other));
    }
    assert(is_for(kinds_for(o, plain), is_marked(pattern), kind) == (!(kind is Csp) && {
            ||| is_marked(pattern) && kind is Document
            ||| !o.dropped.has(kind) && if some_kind_is_asked(options) {
                o.listed.has(kind)
            } else {
                !(kind is Document)
            }
        })) by {
        reveal(kinds_for);
    }
}

/// A line without options applies to requests of every kind but documents alike, and to no
/// report on a policy; an exception applies to documents, too.
pub proof fn lines_without_options(pattern: Seq<char>, debug: bool, request: RequestModel)
    requires
        is_pattern(pattern),
    ensures
        !(request.request_type is Document) ==> line_matches(pattern, debug, request) == (!(
        request.request_type is Csp) && line_matches(
            pattern,
            debug,
            of_kind(request, RequestType::Other),
        )),
        request.request_type is Document && is_marked(pattern) ==> line_matches(
            pattern,
            debug,
            request,
        ) == line_matches(pattern, debug, of_kind(request, RequestType::Other)),
{
    let none = Seq::<Seq<char>>::empty();
    lemma_kind_options(none);
    let plain = lemma_kinds_apply(pattern, none, debug, request);
    let o = read_options(none)->Ok_0;
    assert(with_options(pattern, none) == pattern);
    lemma_no_kinds(o, plain);
}

/// The rule of a line with options: that of its pattern and of what the options say.
pub proof fn lemma_rule_of_line(pattern: Seq<char>, options: Seq<Seq<char>>, debug: bool)
    requires
        is_pattern(pattern),
        are_options(options),
    ensures
        parse_rule(with_options(pattern, options), debug) == match apply_options(
            no_options(),
            options,
        ) {
            Ok(o) => rule_with(
                o,
                is_marked(pattern),
                bare(pattern),
                kept_line(with_options(pattern, options), debug),
            ),
            Err(e) => Err(e),
        },
{
    lemma_with_options(pattern, options, debug);
    reveal(parsed);
    reveal(rule_of);
}

/// The value of an option.
pub open spec fn is_value(s: Seq<char>) -> bool {
    &&& s.len() > 0
    &&& !s.contains('$') && !s.contains(',')
    &&& !is_space(s.last()) && s.last() != '/'
}

/// An option with a value.
pub open spec fn valued(name: Seq<char>, value: Seq<char>) -> Seq<char> {
    name + seq!['='] + value
}

proof fn lemma_redirect_option(o: OptionsModel, name: Seq<char>, value: Seq<char>)
    requires
        name == "redirect"@ || name == "redirect-rule"@,
        is_value(value),
    ensures
        is_option(valued(name, value)),
        read_one(o, valued(name, value)) == Ok::<OptionsModel, NetworkFilterError>(
            OptionsModel {
                mask: FilterMask { redirect_only: name == "redirect-rule"@, ..o.mask },
                redirect: Some(value),
                ..o
            },
        ),
{
    reveal(read_one);
    lemma_redirect();
    lemma_redirect_rule();
    assert(!name.contains('=') && name[0] != '~') by {
        reveal_strlit("redirect");
        reveal_strlit("redirect-rule");
    }
    lemma_valued_option(name, value);
    lemma_names_differ();
}

/// The options `redirect=` and `redirect-rule=` name the resource that requests are answered
/// with; with the second the rule does nothing else. In all else the rule is as it would be.
pub proof fn redirect_options(
    pattern: Seq<char>,
    options: Seq<Seq<char>>,
    name: Seq<char>,
    resource: Seq<char>,
)
    requires
        is_pattern(pattern),
        are_options(options),
        name == "redirect"@ || name == "redirect-rule"@,
        is_value(resource),
    ensures
        match parse_rule(with_options(pattern, options), false) {
            Ok(rule) => parse_rule(
                with_options(pattern, options.push(valued(name, resource))),
                false,
            ) == Ok::<NetworkRule, NetworkFilterError>(
                made_to_redirect(rule, resource, name == "redirect-rule"@),
            ),
            Err(_) => parse_rule(
                with_options(pattern, options.push(valued(name, resource))),
                false,
            ) is Err,
        },
{
    let option = valued(name, resource);
    lemma_redirect_option(no_options(), name, resource);
    match read_options(options) {
        Ok(o) => {
            lemma_redirect_option(o, name, resource);
            let o2 = OptionsModel {
                mask: FilterMask { redirect_only: name == "redirect-rule"@, ..o.mask },
                redirect: Some(resource),
                ..o
            };
            lemma_changed(pattern, options, option, false, o2);
            lemma_raw_lines(pattern, options);
            lemma_raw_lines(pattern, options.push(option));
            reveal(same_but_kinds);
            reveal(parsed);
        },
        Err(_) => {
            lemma_one_more(pattern, options, option, false);
            reveal(parsed);
        },
    }
}

/// Options that say nothing but that they are about policies.
spec fn of_policy(policy: Option<Seq<char>>) -> OptionsModel {
    OptionsModel {
        mask: FilterMask { csp: true, ..default_mask() },
        listed: KindSet::uniform(false, false).with(RequestType::Document).with(
            RequestType::Subdocument,
        ),
        csp: policy,
        ..no_options()
    }
}

/// The option `csp`, with a policy or without.
pub open spec fn csp_option(policy: Option<Seq<char>>) -> Seq<char> {
    match policy {
        Some(policy) => valued("csp"@, policy),
        None => "csp"@,
    }
}

proof fn lemma_csp_option(policy: Option<Seq<char>>)
    requires
        policy matches Some(policy) ==> is_value(policy),
    ensures
        is_option(csp_option(policy)),
        read_options(seq![csp_option(policy)]) == Ok::<OptionsModel, NetworkFilterError>(
            of_policy(policy),
        ),
{
    reveal(read_options);
    lemma_csp();
    lemma_names_differ();
    let option = csp_option(policy);
    if let Some(value) = policy {
        assert(!"csp"@.contains('=') && "csp"@[0] != '~') by {
            reveal_strlit("csp");
        }
        lemma_valued_option("csp"@, value);
    }
    let none = Seq::<Seq<char>>::empty();
    assert(none.push(option) =~= seq![option]);
    lemma_apply_one_more(no_options(), none, option);
    assert(apply_options(no_options(), none) == Ok::<OptionsModel, NetworkFilterError>(
        no_options(),
    ));
}

/// The option `csp=` makes the rule of a line one that adds a policy to the answers to
/// requests for documents and subdocuments; without a policy the rule names none.
pub proof fn csp_options(
    pattern: Seq<char>,
    policy: Option<Seq<char>>,
    debug: bool,
    request: RequestModel,
)
    requires
        is_pattern(pattern),
        policy matches Some(policy) ==> is_value(policy),
    ensures
        line_matches(with_options(pattern, seq![csp_option(policy)]), debug, request) <==> {
            &&& line_matches(pattern, debug, of_kind(request, RequestType::Other))
            &&& request.request_type is Document || request.request_type is Subdocument
        },
        parse_rule(with_options(pattern, seq![csp_option(policy)]), debug) matches Ok(rule) ==> {
            &&& rule.mask.csp
            &&& rule.csp == policy
            &&& rule.mask.exception == is_marked(pattern)
        },
{
    let options = seq![csp_option(policy)];
    let none = Seq::<Seq<char>>::empty();
    let base = of_kind(request, RequestType::Other);
    lemma_csp_option(policy);
    lemma_kind_options(none);
    assert forall|i: int| 0 <= i < options.len() implies is_option(#[trigger] options[i]) by {}
    lemma_with_options_of(pattern, options, debug);
    lemma_with_options_of(pattern, none, debug);
    let o = of_policy(policy);
    let o0 = read_options(none)->Ok_0;
    let l = kept_line(with_options(pattern, options), debug);
    let l0 = kept_line(pattern, debug);
    let m = is_marked(pattern);
    let s = bare(pattern);
    lemma_change(o0, o, m, s, l0, l);
    lemma_lines(pattern, debug, base);
    lemma_lines(with_options(pattern, options), debug, request);
    let before = rule_of(o0, m, s, l0);
    let after = rule_of(o, m, s, l);
    assert(parse_rule(with_options(pattern, options), debug) == after) by {
        reveal(parsed);
    }
    if before is Ok {
        let r0 = before->Ok_0;
        let r = after->Ok_0;
        let plain = choose|plain: bool| #[trigger]
            kinds_for(o0, plain) == r0.mask.kinds && kinds_for(o, plain) == r.mask.kinds;
        lemma_no_kinds(o0, plain);
        lemma_policy_masks(r0, r, o0, o, m, anchors(r0.mask));
        lemma_policy_kinds(o, policy, plain, m, request.request_type);
        lemma_policy_rules(r0, r, request);
    }
}

proof fn lemma_policy_kinds(
    o: OptionsModel,
    policy: Option<Seq<char>>,
    plain: bool,
    exception: bool,
    kind: RequestType,
)
    requires
        o == of_policy(policy),
    ensures
        is_for(kinds_for(o, plain), exception, kind) == (kind is Document || kind is Subdocument),
{
    reveal(kinds_for);
}

proof fn lemma_policy_masks(
    r0: NetworkRule,
    r: NetworkRule,
    o0: OptionsModel,
    o: OptionsModel,
    exception: bool,
    a: (bool, bool, bool, bool),
)
    requires
        same_but_kinds(r0, o0, exception, a),
        same_but_kinds(r, o, exception, a),
        o.mask == (FilterMask { csp: true, ..o0.mask }),
        o0.mask == default_mask(),
    ensures
        for_no_role(for_every_kind(r0)).mask == for_no_role(for_every_kind(r)).mask,
        r.mask.exception == exception,
        r0.mask.exception == exception,
        r.mask.csp,
{
    reveal(same_but_kinds);
}

proof fn lemma_policy_rules(r0: NetworkRule, r: NetworkRule, request: RequestModel)
    requires
        for_no_role(for_every_kind(r0)).mask == for_no_role(for_every_kind(r)).mask,
        r0.mask.kinds.other,
        r.patterns == r0.patterns,
        r.domains == r0.domains,
        r.not_domains == r0.not_domains,
    ensures
        rule_applies(r, request) == (rule_applies(r0, of_kind(request, RequestType::Other))
            && is_for(r.mask.kinds, r.mask.exception, request.request_type)),
{
    reveal(rule_applies);
    let base = of_kind(request, RequestType::Other);
    kinds_restrict_a_rule(r, request, RequestType::Other);
    kinds_restrict_a_rule(r0, base, RequestType::Other);
    assert(of_kind(base, RequestType::Other) == base);
    roles_do_not_count(for_every_kind(r0), base);
    roles_do_not_count(for_every_kind(r), base);
    lemma_same_matching(for_no_role(for_every_kind(r0)), for_no_role(for_every_kind(r)), base);
}

/// The option `generichide`, or `ghide`, makes an exception one against generic hiding; on
/// another line it is refused.
pub proof fn generic_hide_options(pattern: Seq<char>, option: Seq<char>, debug: bool)
    requires
        is_pattern(pattern),
        option == "generichide"@ || option == "ghide"@,
    ensures
        parse_rule(with_options(pattern, seq![option]), debug) matches Ok(rule) ==> {
            &&& rule.mask.generic_hide
            &&& rule.mask.exception
        },
        !is_marked(pattern) ==> parse_rule(with_options(pattern, seq![option]), debug) is Err,
        is_marked(pattern) && parse_rule(pattern, debug) is Ok ==> parse_rule(
            with_options(pattern, seq![option]),
            debug,
        ) is Ok,
{
    lemma_generichide();
    lemma_ghide();
    lemma_names_differ();
    let options = seq![option];
    let none = Seq::<Seq<char>>::empty();
    assert(none.push(option) =~= options);
    lemma_apply_one_more(no_options(), none, option);
    assert(apply_options(no_options(), none) == Ok::<OptionsModel, NetworkFilterError>(
        no_options(),
    ));
    assert forall|i: int| 0 <= i < options.len() implies is_option(#[trigger] options[i]) by {}
    lemma_rule_of_line(pattern, options, debug);
    let o = OptionsModel {
        mask: FilterMask { generic_hide: true, ..default_mask() },
        ..no_options()
    };
    assert(apply_options(no_options(), options) == Ok::<OptionsModel, NetworkFilterError>(o));
    let l = kept_line(with_options(pattern, options), debug);
    lemma_rule_with(o, is_marked(pattern), bare(pattern), l);
    lemma_rule_of_line(pattern, none, debug);
    assert(with_options(pattern, none) == pattern);
    lemma_rule_with(
        no_options(),
        is_marked(pattern),
        bare(pattern),
        kept_line(pattern, debug),
    );
    lemma_pattern_masks(
        bare(pattern),
        excepting(no_options().mask, is_marked(pattern)),
        excepting(o.mask, is_marked(pattern)),
    );
    reveal(rule_of);
    reveal(same_but_kinds);
}

/// The names of the options.
pub open spec fn is_option_name(name: Seq<char>) -> bool {
    ||| exists|kind: RequestType| #[trigger] names_kind(name, kind)
    ||| name == "badfilter"@ || name == "important"@ || name == "match-case"@
    ||| name == "third-party"@ || name == "3p"@ || name == "first-party"@ || name == "1p"@
    ||| name == "generichide"@ || name == "ghide"@
    ||| name == "tag"@ || name == "csp"@ || name == "domain"@ || name == "from"@
    ||| name == "redirect"@ || name == "redirect-rule"@
}

/// The options that cannot be negated.
pub open spec fn has_no_negation(name: Seq<char>) -> bool {
    ||| name == "badfilter"@ || name == "important"@ || name == "match-case"@
    ||| name == "generichide"@ || name == "ghide"@ || name == "document"@ || name == "doc"@
    ||| name == "all"@ || name == "tag"@ || name == "csp"@ || name == "redirect"@
    ||| name == "redirect-rule"@
}

/// A line with an option of no known name stands for no rule; nor does one with an option
/// that is negated and cannot be.
pub proof fn other_options_are_refused(
    pattern: Seq<char>,
    options: Seq<Seq<char>>,
    name: Seq<char>,
    debug: bool,
)
    requires
        is_pattern(pattern),
        are_options(options),
        is_option(name) && !name.contains('=') && name[0] != '~',
        !is_option_name(name) || has_no_negation(name),
    ensures
        !is_option_name(name) ==> parse_rule(
            with_options(pattern, options.push(name)),
            debug,
        ) is Err,
        parse_rule(with_options(pattern, options.push(seq!['~'] + name)), debug) is Err,
{
    let negated = seq!['~'] + name;
    assert(negated.skip(1) =~= name);
    assert(negated.last() == name.last());
    name.index_of_first_ensures('=');
    assert(option_parts(name) == (false, name, Seq::<char>::empty()));
    assert(option_parts(negated) == (true, name, Seq::<char>::empty()));
    assert forall|c: char| (c == '$' || c == ',') implies !(#[trigger] negated.contains(c)) by {
        if negated.contains(c) {
            let i = choose|i: int| 0 <= i < negated.len() && negated[i] == c;
            assert(name[i - 1] == c);
        }
    }
    assert(!negated.contains('$') && !negated.contains(','));
    lemma_one_more(pattern, options, name, debug);
    lemma_one_more(pattern, options, negated, debug);
    reveal(parsed);
    if read_options(options) is Ok {
        let o = read_options(options)->Ok_0;
        lemma_refused(o, name);
        reveal(read_one);
    }
}

#[verifier::rlimit(60)]
proof fn lemma_refused(o: OptionsModel, name: Seq<char>)
    requires
        !is_option_name(name) || has_no_negation(name),
    ensures
        !is_option_name(name) ==> apply_named(o, false, name, Seq::empty()) is Err,
        apply_named(o, true, name, Seq::empty()) is Err,
{
    lemma_names_differ();
    if !is_option_name(name) {
        assert(!names_kind(name, RequestType::Image));
        assert(!names_kind(name, RequestType::Media));
        assert(!names_kind(name, RequestType::Object));
        assert(!names_kind(name, RequestType::Other));
        assert(!names_kind(name, RequestType::Ping));
        assert(!names_kind(name, RequestType::Script));
        assert(!names_kind(name, RequestType::Stylesheet));
        assert(!names_kind(name, RequestType::Subdocument));
        assert(!names_kind(name, RequestType::Xmlhttprequest));
        assert(!names_kind(name, RequestType::Websocket));
        assert(!names_kind(name, RequestType::Font));
        assert(!names_kind(name, RequestType::Document));
    }
}

/// A rule with a tag.
pub open spec fn made_tagged(rule: NetworkRule, tag: Seq<char>) -> NetworkRule {
    NetworkRule { tag: Some(tag), ..rule }
}

/// The option `tag=` gives the rule of a line a tag; in all else the rule is as it would be.
pub proof fn tag_options(pattern: Seq<char>, options: Seq<Seq<char>>, tag: Seq<char>)
    requires
        is_pattern(pattern),
        are_options(options),
        is_value(tag),
    ensures
        match parse_rule(with_options(pattern, options), false) {
            Ok(rule) => parse_rule(
                with_options(pattern, options.push(valued("tag"@, tag))),
                false,
            ) == Ok::<NetworkRule, NetworkFilterError>(made_tagged(rule, tag)),
            Err(_) => parse_rule(
                with_options(pattern, options.push(valued("tag"@, tag))),
                false,
            ) is Err,
        },
{
    let option = valued("tag"@, tag);
    lemma_tag();
    lemma_names_differ();
    assert(!"tag"@.contains('=') && "tag"@[0] != '~') by {
        reveal_strlit("tag");
    }
    lemma_valued_option("tag"@, tag);
    match read_options(options) {
        Ok(o) => {
            let o2 = OptionsModel { tag: Some(tag), ..o };
            assert(read_one(o, option) == Ok::<OptionsModel, NetworkFilterError>(o2)) by {
                reveal(read_one);
            }
            lemma_changed(pattern, options, option, false, o2);
            lemma_raw_lines(pattern, options);
            lemma_raw_lines(pattern, options.push(option));
            reveal(same_but_kinds);
            reveal(parsed);
        },
        Err(_) => {
            lemma_one_more(pattern, options, option, false);
            reveal(parsed);
        },
    }
}

} // verus!

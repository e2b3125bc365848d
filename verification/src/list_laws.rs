//! What holds of every engine that is made of the lines of a list.

use vstd::prelude::*;

use crate::blocker::{bad_rules, kept, without_line};
use crate::engine::{engine_of, lines_set};
use crate::filters::network::{FilterMask, NetworkRule};
use crate::filters::network_parser::{
    apply_flag, apply_kind, apply_named, apply_options, is_slashed, kept_line, no_options,
    option_parts, options_start, parse_rule, NetworkFilterError, OptionsModel,
};
use crate::laws::{
    added_rules_exist, agree, existing_rules_were_added, tags_turn_rules_on_and_off, untagged,
};
use crate::lists::{filter_type_of, parse_line, FilterFormat, FilterParseError, FilterType, Rule};
use crate::optimizer::held_by;
use crate::request::RequestModel;
use crate::resources::{redirects_of, ResourceModel};
use crate::seqs::{lemma_contains_pushed, lemma_filter_contains};
use crate::text::{is_space, lemma_trim, split, trim};

verus! {

proof fn lemma_flag_keeps(mask: FilterMask, negated: bool, name: Seq<char>)
    ensures
        apply_flag(mask, negated, name) matches Some(Ok(r)) ==> r.redirect_only
            == mask.redirect_only,
{
}

proof fn lemma_kind_keeps(so_far: OptionsModel, negated: bool, name: Seq<char>)
    ensures
        apply_kind(so_far, negated, name) matches Ok(r) ==> r.mask == so_far.mask && r.redirect
            == so_far.redirect,
{
}

proof fn lemma_named_redirect_only(
    so_far: OptionsModel,
    negated: bool,
    name: Seq<char>,
    value: Seq<char>,
)
    requires
        so_far.mask.redirect_only ==> so_far.redirect is Some,
    ensures
        apply_named(so_far, negated, name, value) matches Ok(r) ==> (r.mask.redirect_only
            ==> r.redirect is Some),
{
    lemma_flag_keeps(so_far.mask, negated, name);
    lemma_kind_keeps(so_far, negated, name);
}

/// Options that name a rule that only redirects name a resource.
proof fn lemma_redirect_only(so_far: OptionsModel, options: Seq<Seq<char>>)
    requires
        so_far.mask.redirect_only ==> so_far.redirect is Some,
    ensures
        apply_options(so_far, options) matches Ok(r) ==> (r.mask.redirect_only
            ==> r.redirect is Some),
    decreases options.len(),
{
    if options.len() > 0 {
        let (negated, name, value) = option_parts(options[0]);
        lemma_named_redirect_only(so_far, negated, name, value);
        match apply_named(so_far, negated, name, value) {
            Ok(next) => {
                lemma_redirect_only(next, options.drop_first());
            },
            Err(_) => {},
        }
    }
}

/// A rule that a line stands for has one pattern, and names a resource where it
/// only redirects.
proof fn lemma_parsed(line: Seq<char>, debug: bool, format: FilterFormat)
    ensures
        parse_line(line, debug, format) matches Ok(Rule::Network(rule)) ==> {
            &&& rule.patterns.len() == 1
            &&& rule.mask.redirect_only ==> rule.redirect is Some
        },
{
    reveal(parse_line);
    lemma_trim(line);
    let s = trim(line);
    let body = if "@@"@.is_prefix_of(s) {
        s.skip(2)
    } else {
        s
    };
    match options_start(body) {
        Some(i) => {
            lemma_redirect_only(no_options(), split(body.skip(i), ','));
        },
        None => {},
    }
}

/// The network rules of some lines are those that a line stands for.
pub proof fn lemma_line_rules(
    lines: Seq<Seq<char>>,
    format: FilterFormat,
    debug: bool,
    rule: NetworkRule,
)
    ensures
        lines_set(lines, format, debug).debug == debug,
        lines_set(lines, format, debug).network.contains(rule) <==> exists|i: int|
            0 <= i < lines.len() && parse_line(#[trigger] lines[i], debug, format) == Ok::<
                Rule,
                FilterParseError,
            >(Rule::Network(rule)),
    decreases lines.len(),
{
    if lines.len() > 0 {
        let front = lines.drop_last();
        let line = lines.last();
        lemma_line_rules(front, format, debug, rule);
        let before = lines_set(front, format, debug);
        if let Ok(Rule::Network(r)) = parse_line(line, debug, format) {
            lemma_contains_pushed(before.network, r, rule);
        }
        let wanted = Ok::<Rule, FilterParseError>(Rule::Network(rule));
        assert(lines[lines.len() - 1] == line);
        if exists|i: int|
            0 <= i < front.len() && parse_line(#[trigger] front[i], debug, format) == wanted {
            let i = choose|i: int|
                0 <= i < front.len() && parse_line(#[trigger] front[i], debug, format) == wanted;
            assert(lines[i] == front[i]);
        }
        if exists|i: int|
            0 <= i < lines.len() && parse_line(#[trigger] lines[i], debug, format) == wanted {
            let i = choose|i: int|
                0 <= i < lines.len() && parse_line(#[trigger] lines[i], debug, format) == wanted;
            if i < front.len() {
                assert(front[i] == lines[i]);
            }
        }
    }
}

/// A line in the standard format stands for a network rule, which none of `bad`
/// takes back.
pub open spec fn stands_for(
    line: Seq<char>,
    debug: bool,
    bad: Seq<NetworkRule>,
    rule: NetworkRule,
) -> bool {
    match parse_line(line, debug, FilterFormat::Standard) {
        Ok(Rule::Network(found)) => kept(bad, found) && without_line(found) == rule,
        _ => false,
    }
}

/// The text of a network rule is found if and only if a line of the list stands
/// for the rule and no line takes it back.
pub proof fn filters_that_exist_were_added(
    lines: Seq<Seq<char>>,
    debug: bool,
    optimize: bool,
    filter: Seq<char>,
    rule: NetworkRule,
)
    requires
        parse_rule(filter, false) == Ok::<NetworkRule, NetworkFilterError>(rule),
    ensures
        ({
            let set = lines_set(lines, FilterFormat::Standard, debug);
            engine_of(set, optimize).blocker.has_rule(rule) <==> exists|i: int|
                0 <= i < lines.len() && stands_for(
                    #[trigger] lines[i],
                    debug,
                    bad_rules(set.network),
                    rule,
                )
        }),
{
    let format = FilterFormat::Standard;
    let set = lines_set(lines, format, debug);
    let rules = set.network;
    let bad = bad_rules(rules);
    assert(without_line(rule) =~= rule);
    if exists|i: int| 0 <= i < lines.len() && stands_for(#[trigger] lines[i], debug, bad, rule) {
        let i = choose|i: int|
            0 <= i < lines.len() && stands_for(#[trigger] lines[i], debug, bad, rule);
        if let Ok(Rule::Network(found)) = parse_line(lines[i], debug, format) {
            lemma_line_rules(lines, format, debug, found);
            lemma_parsed(lines[i], debug, format);
            added_rules_exist(rules, optimize, found);
        }
    }
    if engine_of(set, optimize).blocker.has_rule(rule) {
        existing_rules_were_added(rules, optimize, rule);
        let i = choose|i: int|
            0 <= i < rules.len() && kept(bad, #[trigger] rules[i]) && held_by(rules[i], rule);
        let found = rules[i];
        assert(rules.contains(found));
        lemma_line_rules(lines, format, debug, found);
        let k = choose|k: int|
            0 <= k < lines.len() && parse_line(#[trigger] lines[k], debug, format) == Ok::<
                Rule,
                FilterParseError,
            >(Rule::Network(found));
        lemma_parsed(lines[k], debug, format);
        assert(found.patterns.contains(rule.patterns[0]));
        assert(found.patterns =~= rule.patterns);
        assert(without_line(found) =~= NetworkRule { patterns: found.patterns, ..found.frame() });
        assert(rule =~= NetworkRule { patterns: rule.patterns, ..rule.frame() });
        assert(stands_for(lines[k], debug, bad, rule));
    }
}

/// A network rule that was loaded is found again by its line, whichever sort it is and
/// whatever tags are enabled, unless another line takes it back.
pub proof fn loaded_filters_are_found(
    lines: Seq<Seq<char>>,
    debug: bool,
    optimize: bool,
    tags: Set<Seq<char>>,
    filter: Seq<char>,
    rule: NetworkRule,
)
    requires
        lines.contains(filter),
        parse_line(filter, debug, FilterFormat::Standard) == Ok::<Rule, FilterParseError>(
            Rule::Network(rule),
        ),
        kept(bad_rules(lines_set(lines, FilterFormat::Standard, debug).network), rule),
    ensures
        ({
            let set = lines_set(lines, FilterFormat::Standard, debug);
            match parse_rule(filter, false) {
                Ok(found) => engine_of(set, optimize).with_tags(tags).blocker.has_rule(found),
                Err(_) => false,
            }
        }),
{
    let format = FilterFormat::Standard;
    let rules = lines_set(lines, format, debug).network;
    let k = choose|k: int| 0 <= k < lines.len() && lines[k] == filter;
    assert(parse_line(lines[k], debug, format) == Ok::<Rule, FilterParseError>(Rule::Network(rule)));
    lemma_line_rules(lines, format, debug, rule);
    lemma_parsed(filter, debug, format);
    lemma_line_is_text(filter, debug, rule);
    added_rules_exist(rules, optimize, rule);
}

/// A list without bad filters takes none of its rules back, so each is found again by
/// its line.
pub proof fn without_bad_filters_all_are_found(
    lines: Seq<Seq<char>>,
    debug: bool,
    optimize: bool,
    tags: Set<Seq<char>>,
    filter: Seq<char>,
    rule: NetworkRule,
)
    requires
        lines.contains(filter),
        parse_line(filter, debug, FilterFormat::Standard) == Ok::<Rule, FilterParseError>(
            Rule::Network(rule),
        ),
        no_bad_filters(lines, debug),
    ensures
        ({
            let set = lines_set(lines, FilterFormat::Standard, debug);
            match parse_rule(filter, false) {
                Ok(found) => engine_of(set, optimize).with_tags(tags).blocker.has_rule(found),
                Err(_) => false,
            }
        }),
{
    let k = choose|k: int| 0 <= k < lines.len() && lines[k] == filter;
    assert(!takes_back(lines[k], debug));
    lemma_no_bad_filters(lines, debug);
    loaded_filters_are_found(lines, debug, optimize, tags, filter, rule);
}

/// A line in the standard format stands for a rule that takes others back.
pub open spec fn takes_back(line: Seq<char>, debug: bool) -> bool {
    match parse_line(line, debug, FilterFormat::Standard) {
        Ok(Rule::Network(rule)) => rule.mask.bad_filter,
        _ => false,
    }
}

/// No line stands for a rule that takes others back.
pub open spec fn no_bad_filters(lines: Seq<Seq<char>>, debug: bool) -> bool {
    forall|i: int| 0 <= i < lines.len() ==> !takes_back(#[trigger] lines[i], debug)
}

proof fn lemma_no_bad_filters(lines: Seq<Seq<char>>, debug: bool)
    requires
        no_bad_filters(lines, debug),
    ensures
        bad_rules(lines_set(lines, FilterFormat::Standard, debug).network).len() == 0,
{
    let rules = lines_set(lines, FilterFormat::Standard, debug).network;
    let bad = bad_rules(rules);
    if bad.len() > 0 {
        let rule = bad[0];
        assert(bad.contains(rule));
        lemma_filter_contains(rules, |r: NetworkRule| r.mask.bad_filter, rule);
        lemma_line_rules(lines, FilterFormat::Standard, debug, rule);
        let k = choose|k: int|
            0 <= k < lines.len() && parse_line(#[trigger] lines[k], debug, FilterFormat::Standard)
                == Ok::<Rule, FilterParseError>(Rule::Network(rule));
        assert(takes_back(lines[k], debug));
    }
}

/// What a line stands for is what its text stands for.
proof fn lemma_line_is_text(line: Seq<char>, debug: bool, rule: NetworkRule)
    requires
        parse_line(line, debug, FilterFormat::Standard) == Ok::<Rule, FilterParseError>(
            Rule::Network(rule),
        ),
    ensures
        parse_rule(line, debug) == Ok::<NetworkRule, NetworkFilterError>(rule),
        parse_rule(line, false) == Ok::<NetworkRule, NetworkFilterError>(without_line(rule)),
{
    reveal(parse_line);
    lemma_trim(line);
}

/// A pattern with a tag.
pub open spec fn tagged_line(pattern: Seq<char>, tag: Seq<char>) -> Seq<char> {
    pattern + "$tag="@ + tag
}

/// A pattern without the mark of an exception.
pub open spec fn unmarked(pattern: Seq<char>) -> Seq<char> {
    if "@@"@.is_prefix_of(pattern) {
        pattern.skip(2)
    } else {
        pattern
    }
}

/// A pattern can be given a tag by an option: it has no options, and neither its ends
/// nor the tag make another line of it.
pub open spec fn can_be_tagged(pattern: Seq<char>, tag: Seq<char>) -> bool {
    &&& pattern.len() > 1
    &&& trim(pattern) == pattern
    &&& options_start(unmarked(pattern)) is None
    &&& !tag.contains('$') && !tag.contains(',')
    &&& tag.len() > 0 ==> !is_space(tag.last())
    &&& !is_slashed(unmarked(tagged_line(pattern, tag)))
}

proof fn lemma_tag_option(tag: Seq<char>)
    requires
        !tag.contains(','),
    ensures
        apply_options(no_options(), split("tag="@ + tag, ',')) == Ok::<
            OptionsModel,
            NetworkFilterError,
        >(OptionsModel { tag: Some(tag), ..no_options() }),
{
    reveal_strlit("tag=");
    reveal_strlit("tag");
    reveal_strlit("domain");
    reveal_strlit("from");
    let option = "tag="@ + tag;
    assert(!option.contains(',')) by {
        if option.contains(',') {
            let i = choose|i: int| 0 <= i < option.len() && option[i] == ',';
            assert(i >= 4);
            assert(tag[i - 4] == ',');
        }
    }
    option.index_of_first_ensures(',');
    assert(split(option, ',') == seq![option]);
    option.index_of_first_ensures('=');
    assert(option[3] == '=');
    assert(option.contains('='));
    assert(option.index_of_first('=') == Some(3int)) by {
        let i = option.index_of_first('=')->0;
        if i < 3 {
            assert(option[i] != '=');
        }
        if i > 3 {
            assert(option[3] != '=');
        }
    }
    assert(option.take(3) =~= "tag"@);
    assert(option.skip(4) =~= tag);
    assert(option_parts(option) == (false, "tag"@, tag));
    assert("tag"@.len() != "domain"@.len() && "tag"@.len() != "from"@.len());
    assert(seq![option].drop_first() =~= Seq::empty());
    assert(seq![option][0] == option);
    let after = OptionsModel { tag: Some(tag), ..no_options() };
    assert(apply_named(no_options(), false, "tag"@, tag) == Ok::<OptionsModel, NetworkFilterError>(
        after,
    ));
    assert(apply_options(after, Seq::empty()) == Ok::<OptionsModel, NetworkFilterError>(after));
}

/// The option that gives a pattern a tag changes nothing else of the rule.
pub proof fn tag_option_sets_the_tag_alone(pattern: Seq<char>, tag: Seq<char>, debug: bool)
    requires
        can_be_tagged(pattern, tag),
    ensures
        parse_rule(tagged_line(pattern, tag), debug) == match parse_rule(pattern, debug) {
            Ok(rule) => Ok::<NetworkRule, NetworkFilterError>(
                NetworkRule {
                    tag: Some(tag),
                    raw_line: kept_line(tagged_line(pattern, tag), debug),
                    ..rule
                },
            ),
            Err(e) => Err(e),
        },
{
    let line = tagged_line(pattern, tag);
    let s = unmarked(pattern);
    let body = unmarked(line);
    reveal_strlit("@@");
    reveal_strlit("$tag=");
    reveal_strlit("tag=");
    lemma_trim(pattern);
    assert(line[0] == pattern[0]);
    assert(!is_space(line.last()));
    lemma_trim(line);
    assert(line.subrange(0, 2) =~= pattern.subrange(0, 2));
    assert(body =~= s + "$tag="@ + tag);
    let n = s.len() as int;
    body.index_of_last_ensures('$');
    assert(body[n] == '$');
    assert(body.contains('$'));
    assert(body.index_of_last('$') == Some(n)) by {
        let i = body.index_of_last('$')->0;
        if i < n {
            assert(body[n] != '$');
        }
        if i > n + 4 {
            assert(tag[i - n - 5] == '$');
            assert(tag.contains('$'));
        }
    }
    assert(options_start(body) == Some(n + 1));
    assert(body.skip(n + 1) =~= "tag="@ + tag);
    assert(body.take(n) =~= s);
    lemma_tag_option(tag);
}

/// A line with a tag acts as the line without it while the tag is enabled, and as if
/// it were not there while it is not, in a list without bad filters.
pub proof fn tags_turn_lines_on_and_off(
    lines: Seq<Seq<char>>,
    pattern: Seq<char>,
    tag: Seq<char>,
    debug: bool,
    optimize: bool,
    tags: Set<Seq<char>>,
    resources: Seq<ResourceModel>,
    request: RequestModel,
    matched_rule: bool,
    force: bool,
)
    requires
        no_bad_filters(lines, debug),
        can_be_tagged(pattern, tag),
        filter_type_of(pattern) == FilterType::Network,
        filter_type_of(tagged_line(pattern, tag)) == FilterType::Network,
    ensures
        ({
            let format = FilterFormat::Standard;
            let with_line = lines_set(lines.push(tagged_line(pattern, tag)), format, debug);
            let with_plain = lines_set(lines.push(pattern), format, debug);
            let with_none = lines_set(lines, format, debug);
            let a = engine_of(with_line, optimize).with_tags(tags).with_resources(resources);
            let other = if tags.contains(tag) {
                with_plain
            } else {
                with_none
            };
            let b = engine_of(other, optimize).with_tags(tags).with_resources(resources);
            &&& agree(
                a.blocker.verdict(request, matched_rule, force),
                b.blocker.verdict(request, matched_rule, force),
            )
            &&& a.blocker.csp_directives(request) == b.blocker.csp_directives(request)
            &&& a.blocker.hides_no_generics(request) == b.blocker.hides_no_generics(request)
            &&& a.cosmetics == b.cosmetics
        }),
{
    let format = FilterFormat::Standard;
    let line = tagged_line(pattern, tag);
    let none = lines_set(lines, format, debug);
    let rules = none.network;
    lemma_line_rules(lines, format, debug, arbitrary());
    lemma_no_bad_filters(lines, debug);
    tag_option_sets_the_tag_alone(pattern, tag, debug);
    lemma_trim(pattern);
    reveal_strlit("$tag=");
    assert(line[0] == pattern[0]);
    assert(!is_space(line.last()));
    lemma_trim(line);
    assert(lines.push(line).drop_last() =~= lines);
    assert(lines.push(pattern).drop_last() =~= lines);
    lemma_network_line(pattern, debug);
    lemma_network_line(line, debug);
    match parse_rule(pattern, debug) {
        Ok(plain) => {
            let rule = NetworkRule { tag: Some(tag), raw_line: kept_line(line, debug), ..plain };
            lemma_without_options(pattern, debug, plain);
            assert(without_line(untagged(rule)) =~= without_line(plain));
            assert(lines_set(lines.push(line), format, debug).network == rules.push(rule));
            assert(lines_set(lines.push(pattern), format, debug).network == rules.push(plain));
            tags_turn_rules_on_and_off(
                rules,
                rule,
                plain,
                tag,
                optimize,
                tags,
                redirects_of(resources),
                request,
                matched_rule,
                force,
            );
        },
        Err(_) => {
            assert(lines_set(lines.push(line), format, debug) == none);
            assert(lines_set(lines.push(pattern), format, debug) == none);
        },
    }
}

/// What a trimmed line that holds a network rule stands for.
proof fn lemma_network_line(line: Seq<char>, debug: bool)
    requires
        line.len() > 0,
        trim(line) == line,
        filter_type_of(line) == FilterType::Network,
    ensures
        match parse_rule(line, debug) {
            Ok(rule) => parse_line(line, debug, FilterFormat::Standard) == Ok::<
                Rule,
                FilterParseError,
            >(Rule::Network(rule)),
            Err(_) => parse_line(line, debug, FilterFormat::Standard) is Err,
        },
{
    reveal(parse_line);
}

/// A rule without options has no tag and takes none back.
proof fn lemma_without_options(pattern: Seq<char>, debug: bool, rule: NetworkRule)
    requires
        trim(pattern) == pattern,
        options_start(unmarked(pattern)) is None,
        parse_rule(pattern, debug) == Ok::<NetworkRule, NetworkFilterError>(rule),
    ensures
        rule.tag is None,
        !rule.mask.bad_filter,
{
}

} // verus!

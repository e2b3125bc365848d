//! What becomes of a request, in terms of the lines of a list.

use vstd::prelude::*;

use crate::blocker::{
    added_policy, all_matches, all_policies_taken_back, bad_rules, cancels, first_match,
    has_exception, in_slot, kept, matching, no_verdict, policies, policy_taken_back, redirect_rules,
    redirecting, slot_of, slot_rules, BlockerModel, Slot,
};
use crate::engine::{lines_set, parse_failure};
use crate::filters::network::{FilterMask, NetworkRule};
use crate::laws::{blocked_requests, equipped, lemma_first_match};
use crate::list_laws::lemma_line_rules;
use crate::lists::{parse_line, FilterFormat, FilterParseError, Rule};
use crate::optimizer::{any_match, fuse, joined, lemma_fuse_match, stored};
use crate::option_laws::made_bad;
use crate::request::RequestModel;
use crate::resources::RedirectModel;
use crate::seqs::{lemma_filter_contains, lemma_filter_map_contains};
use crate::text::{join, lemma_unique};

verus! {

/// A line stands for a network rule.
pub open spec fn line_is(line: Seq<char>, debug: bool, rule: NetworkRule) -> bool {
    parse_line(line, debug, FilterFormat::Standard) == Ok::<Rule, FilterParseError>(
        Rule::Network(rule),
    )
}

/// Some line stands for a network rule.
pub open spec fn some_line_is(lines: Seq<Seq<char>>, debug: bool, rule: NetworkRule) -> bool {
    exists|i: int| 0 <= i < lines.len() && line_is(#[trigger] lines[i], debug, rule)
}

/// A rule but for the line that it keeps.
pub open spec fn bare_rule(rule: NetworkRule) -> NetworkRule {
    NetworkRule { raw_line: None, ..rule }
}

/// A rule is taken out of the list: a line stands for the same rule with the option
/// `badfilter`.
pub open spec fn is_taken_out(lines: Seq<Seq<char>>, debug: bool, rule: NetworkRule) -> bool {
    exists|bad: NetworkRule| #[trigger]
        some_line_is(lines, debug, bad) && takes_out(bad, rule)
}

/// A rule of the list applies to a request under the tags that are enabled: a line stands
/// for it, none takes it out, it is not one that takes others out, and it has no tag or an
/// enabled one.
pub open spec fn rule_holds(
    lines: Seq<Seq<char>>,
    debug: bool,
    tags: Set<Seq<char>>,
    request: RequestModel,
    rule: NetworkRule,
) -> bool {
    &&& some_line_is(lines, debug, rule)
    &&& !rule.mask.bad_filter
    &&& !is_taken_out(lines, debug, rule)
    &&& rule.tag matches Some(tag) ==> tags.contains(tag)
    &&& rule.matches(request)
}

/// A rule says whether requests pass: it is none for policies, none against generic
/// hiding, and none that only redirects.
pub open spec fn is_verdict_rule(rule: NetworkRule) -> bool {
    !rule.mask.csp && !rule.mask.generic_hide && !rule.mask.redirect_only
}

/// A rule that blocks applies to a request, one that is important where that is asked for.
pub open spec fn is_blocked_by(
    lines: Seq<Seq<char>>,
    debug: bool,
    tags: Set<Seq<char>>,
    request: RequestModel,
    important: bool,
) -> bool {
    exists|rule: NetworkRule| #[trigger]
        rule_holds(lines, debug, tags, request, rule) && is_verdict_rule(rule)
            && !rule.mask.exception && (important ==> rule.mask.important)
}

/// An exception applies to a request.
pub open spec fn is_let_through_by(
    lines: Seq<Seq<char>>,
    debug: bool,
    tags: Set<Seq<char>>,
    request: RequestModel,
) -> bool {
    exists|rule: NetworkRule| #[trigger]
        rule_holds(lines, debug, tags, request, rule) && is_verdict_rule(rule)
            && rule.mask.exception
}

/// The rules of some lines with tags and resources.
pub open spec fn list_blocker(
    lines: Seq<Seq<char>>,
    debug: bool,
    optimize: bool,
    tags: Set<Seq<char>>,
    resources: Map<Seq<char>, RedirectModel>,
) -> BlockerModel {
    equipped(lines_set(lines, FilterFormat::Standard, debug).network, optimize, tags, resources)
}

proof fn lemma_kept(lines: Seq<Seq<char>>, debug: bool, rule: NetworkRule)
    ensures
        kept(bad_rules(lines_set(lines, FilterFormat::Standard, debug).network), rule) <==> (
        !rule.mask.bad_filter && !is_taken_out(lines, debug, rule)),
{
    let all = lines_set(lines, FilterFormat::Standard, debug).network;
    let bad = bad_rules(all);
    let p = |r: NetworkRule| r.mask.bad_filter;
    if !rule.mask.bad_filter {
        assert forall|b: NetworkRule| #[trigger] cancels(b, rule) <==> takes_out(b, rule) by {
            lemma_cancels(b, rule);
        }
        if is_taken_out(lines, debug, rule) {
            let b = choose|b: NetworkRule| #[trigger]
                some_line_is(lines, debug, b) && takes_out(b, rule);
            lemma_line_is(lines, debug, b);
            lemma_filter_contains(all, p, b);
            assert(bad.contains(b));
            let i = choose|i: int| 0 <= i < bad.len() && bad[i] == b;
            assert(cancels(bad[i], rule));
        }
        if !kept(bad, rule) {
            let i = choose|i: int| 0 <= i < bad.len() && cancels(#[trigger] bad[i], rule);
            let b = bad[i];
            assert(bad.contains(b));
            lemma_filter_contains(all, p, b);
            lemma_line_is(lines, debug, b);
            assert(some_line_is(lines, debug, b));
        }
    }
}

proof fn lemma_bad_masks(a: FilterMask, b: FilterMask)
    requires
        !b.bad_filter,
    ensures
        (a.bad_filter && FilterMask { bad_filter: false, ..a } == b) <==> a == (FilterMask {
            bad_filter: true,
            ..b
        }),
{
}

/// Rules are equal if they are but for their lines, part by part.
proof fn lemma_same_parts(a: NetworkRule, b: NetworkRule)
    ensures
        bare_rule(a) == bare_rule(b) <==> {
            &&& a.mask == b.mask
            &&& a.patterns == b.patterns
            &&& a.domains == b.domains
            &&& a.not_domains == b.not_domains
            &&& a.redirect == b.redirect
            &&& a.csp == b.csp
            &&& a.tag == b.tag
        },
{
    let x = bare_rule(a);
    let y = bare_rule(b);
    assert(x.mask == a.mask && y.mask == b.mask);
    assert(x.patterns == a.patterns && y.patterns == b.patterns);
    assert(x.domains == a.domains && y.domains == b.domains);
    assert(x.not_domains == a.not_domains && y.not_domains == b.not_domains);
    assert(x.redirect == a.redirect && y.redirect == b.redirect);
    assert(x.csp == a.csp && y.csp == b.csp);
    assert(x.tag == a.tag && y.tag == b.tag);
}

/// A rule takes another out of the list: it is the same with the option `badfilter`.
pub open spec fn takes_out(bad: NetworkRule, rule: NetworkRule) -> bool {
    bad.mask.bad_filter && bare_rule(bad) == bare_rule(made_bad(rule))
}

/// A rule that takes none back.
spec fn made_good(bad: NetworkRule) -> NetworkRule {
    NetworkRule { mask: FilterMask { bad_filter: false, ..bad.mask }, ..bad }
}

proof fn lemma_made_good(bad: NetworkRule, rule: NetworkRule)
    ensures
        cancels(bad, rule) <==> bad.mask.bad_filter && bare_rule(made_good(bad)) == bare_rule(rule),
{
}

/// Two rules are equal part by part, but for their masks and lines.
spec fn same_but_masks(a: NetworkRule, b: NetworkRule) -> bool {
    &&& a.patterns == b.patterns
    &&& a.domains == b.domains
    &&& a.not_domains == b.not_domains
    &&& a.redirect == b.redirect
    &&& a.csp == b.csp
    &&& a.tag == b.tag
}

proof fn lemma_good_parts(bad: NetworkRule, rule: NetworkRule)
    ensures
        bare_rule(made_good(bad)) == bare_rule(rule) <==> same_but_masks(bad, rule) && (
        FilterMask { bad_filter: false, ..bad.mask }) == rule.mask,
{
    lemma_same_parts(made_good(bad), rule);
}

proof fn lemma_bad_parts(bad: NetworkRule, rule: NetworkRule)
    ensures
        bare_rule(bad) == bare_rule(made_bad(rule)) <==> same_but_masks(bad, rule) && bad.mask == (
        FilterMask { bad_filter: true, ..rule.mask }),
{
    lemma_same_parts(bad, made_bad(rule));
}

#[verifier::rlimit(100)]
proof fn lemma_cancels(bad: NetworkRule, rule: NetworkRule)
    requires
        !rule.mask.bad_filter,
    ensures
        cancels(bad, rule) <==> takes_out(bad, rule),
{
    lemma_bad_masks(bad.mask, rule.mask);
    lemma_made_good(bad, rule);
    lemma_good_parts(bad, rule);
    lemma_bad_parts(bad, rule);
}

proof fn lemma_line_is(lines: Seq<Seq<char>>, debug: bool, rule: NetworkRule)
    ensures
        lines_set(lines, FilterFormat::Standard, debug).network.contains(rule) <==> some_line_is(
            lines,
            debug,
            rule,
        ),
{
    lemma_line_rules(lines, FilterFormat::Standard, debug, rule);
    if some_line_is(lines, debug, rule) {
        let i = choose|i: int| 0 <= i < lines.len() && line_is(#[trigger] lines[i], debug, rule);
        assert(parse_line(lines[i], debug, FilterFormat::Standard) == Ok::<Rule, FilterParseError>(
            Rule::Network(rule),
        ));
    }
    if lines_set(lines, FilterFormat::Standard, debug).network.contains(rule) {
        let i = choose|i: int|
            0 <= i < lines.len() && parse_line(#[trigger] lines[i], debug, FilterFormat::Standard)
                == Ok::<Rule, FilterParseError>(Rule::Network(rule));
        assert(line_is(lines[i], debug, rule));
    }
}

/// Some rule of a slot applies if and only if a rule of the list does that belongs there.
proof fn lemma_slot_match(
    lines: Seq<Seq<char>>,
    debug: bool,
    optimize: bool,
    tags: Set<Seq<char>>,
    request: RequestModel,
    slot: Slot,
)
    ensures
        any_match(
            stored(slot_rules(lines_set(lines, FilterFormat::Standard, debug).network, slot), optimize),
            request,
            tags,
        ) <==> exists|rule: NetworkRule| #[trigger]
            rule_holds(lines, debug, tags, request, rule) && slot_of(rule) == slot,
{
    let all = lines_set(lines, FilterFormat::Standard, debug).network;
    let list = slot_rules(all, slot);
    let p = in_slot(bad_rules(all), slot);
    lemma_fuse_match(list, request, tags);
    if any_match(list, request, tags) {
        let i = choose|i: int|
            0 <= i < list.len() && (#[trigger] list[i]).in_force(tags) && list[i].matches(request);
        let rule = list[i];
        assert(list.contains(rule));
        lemma_filter_contains(all, p, rule);
        lemma_line_is(lines, debug, rule);
        lemma_kept(lines, debug, rule);
        assert(rule_holds(lines, debug, tags, request, rule) && slot_of(rule) == slot);
    }
    if exists|rule: NetworkRule| #[trigger]
        rule_holds(lines, debug, tags, request, rule) && slot_of(rule) == slot {
        let rule = choose|rule: NetworkRule| #[trigger]
            rule_holds(lines, debug, tags, request, rule) && slot_of(rule) == slot;
        lemma_line_is(lines, debug, rule);
        lemma_kept(lines, debug, rule);
        lemma_filter_contains(all, p, rule);
        assert(list.contains(rule));
        let i = choose|i: int| 0 <= i < list.len() && list[i] == rule;
        assert(list[i].in_force(tags) && list[i].matches(request));
    }
}

proof fn lemma_roles(
    lines: Seq<Seq<char>>,
    debug: bool,
    optimize: bool,
    tags: Set<Seq<char>>,
    resources: Map<Seq<char>, RedirectModel>,
    request: RequestModel,
)
    ensures
        ({
            let blocker = list_blocker(lines, debug, optimize, tags, resources);
            &&& any_match(blocker.importants, request, tags) == is_blocked_by(
                lines,
                debug,
                tags,
                request,
                true,
            )
            &&& (any_match(blocker.importants, request, tags) || any_match(
                blocker.tagged,
                request,
                tags,
            ) || any_match(blocker.filters, request, tags)) == is_blocked_by(
                lines,
                debug,
                tags,
                request,
                false,
            )
            &&& any_match(blocker.exceptions, request, tags) == is_let_through_by(
                lines,
                debug,
                tags,
                request,
            )
        }),
{
    lemma_slot_match(lines, debug, optimize, tags, request, Slot::Important);
    lemma_slot_match(lines, debug, optimize, tags, request, Slot::Tagged);
    lemma_slot_match(lines, debug, optimize, tags, request, Slot::Plain);
    lemma_slot_match(lines, debug, optimize, tags, request, Slot::Exception);
    if is_blocked_by(lines, debug, tags, request, true) {
        let rule = choose|rule: NetworkRule| #[trigger]
            rule_holds(lines, debug, tags, request, rule) && is_verdict_rule(rule)
                && !rule.mask.exception && rule.mask.important;
        assert(slot_of(rule) == Slot::Important);
    }
    if is_blocked_by(lines, debug, tags, request, false) {
        let rule = choose|rule: NetworkRule| #[trigger]
            rule_holds(lines, debug, tags, request, rule) && is_verdict_rule(rule)
                && !rule.mask.exception;
        assert(slot_of(rule) == Slot::Important || slot_of(rule) == Slot::Tagged || slot_of(rule)
            == Slot::Plain);
    }
    if is_let_through_by(lines, debug, tags, request) {
        let rule = choose|rule: NetworkRule| #[trigger]
            rule_holds(lines, debug, tags, request, rule) && is_verdict_rule(rule)
                && rule.mask.exception;
        assert(slot_of(rule) == Slot::Exception);
    }
    let blocker = list_blocker(lines, debug, optimize, tags, resources);
    if any_match(blocker.importants, request, tags) {
        let rule = choose|rule: NetworkRule| #[trigger]
            rule_holds(lines, debug, tags, request, rule) && slot_of(rule) == Slot::Important;
        assert(is_verdict_rule(rule) && !rule.mask.exception && rule.mask.important);
    }
    if any_match(blocker.tagged, request, tags) {
        let rule = choose|rule: NetworkRule| #[trigger]
            rule_holds(lines, debug, tags, request, rule) && slot_of(rule) == Slot::Tagged;
        assert(is_verdict_rule(rule) && !rule.mask.exception);
    }
    if any_match(blocker.filters, request, tags) {
        let rule = choose|rule: NetworkRule| #[trigger]
            rule_holds(lines, debug, tags, request, rule) && slot_of(rule) == Slot::Plain;
        assert(is_verdict_rule(rule) && !rule.mask.exception);
    }
    if any_match(blocker.exceptions, request, tags) {
        let rule = choose|rule: NetworkRule| #[trigger]
            rule_holds(lines, debug, tags, request, rule) && slot_of(rule) == Slot::Exception;
        assert(is_verdict_rule(rule) && rule.mask.exception);
    }
}

/// A request is blocked if and only if its scheme is one that rules apply to, and an
/// important line applies to it, or a line that blocks does, here or before, and no line
/// that makes an exception. Which rule blocks and which exception lets through is told
/// along: a rule where one applies, an exception where it counts or is asked for.
pub proof fn lines_decide_on_requests(
    lines: Seq<Seq<char>>,
    debug: bool,
    optimize: bool,
    tags: Set<Seq<char>>,
    resources: Map<Seq<char>, RedirectModel>,
    request: RequestModel,
    matched_rule: bool,
    force: bool,
)
    ensures
        ({
            let verdict = list_blocker(lines, debug, optimize, tags, resources).verdict(
                request,
                matched_rule,
                force,
            );
            let important = is_blocked_by(lines, debug, tags, request, true);
            let blocked = is_blocked_by(lines, debug, tags, request, false);
            let excepted = is_let_through_by(lines, debug, tags, request);
            &&& verdict.matched == (request.is_supported && (important || ((blocked || matched_rule)
                && !excepted)))
            &&& verdict.important == (request.is_supported && important)
            &&& verdict.filter is Some == (request.is_supported && (important || (blocked
                && !matched_rule)))
            &&& verdict.exception is Some == (request.is_supported && !important && excepted && (
            blocked || matched_rule || force))
            &&& verdict.error is None
        }),
{
    let blocker = list_blocker(lines, debug, optimize, tags, resources);
    lemma_roles(lines, debug, optimize, tags, resources, request);
    blocked_requests(blocker, request, matched_rule, force);
    lemma_first_match(blocker.importants, request, tags);
    lemma_first_match(blocker.tagged, request, tags);
    lemma_first_match(blocker.filters, request, tags);
    lemma_first_match(blocker.exceptions, request, tags);
}

/// Of two lists put together, the first rule that applies is that of the first list, and
/// where it has none that of the second.
pub proof fn the_first_rule_counts(
    a: Seq<NetworkRule>,
    b: Seq<NetworkRule>,
    request: RequestModel,
    tags: Set<Seq<char>>,
)
    ensures
        first_match(a + b, request, tags) == match first_match(a, request, tags) {
            Some(rule) => Some(rule),
            None => first_match(b, request, tags),
        },
    decreases a.len(),
{
    if a.len() == 0 {
        assert(a + b =~= b);
    } else {
        assert((a + b)[0] == a[0]);
        assert((a + b).drop_first() =~= a.drop_first() + b);
        the_first_rule_counts(a.drop_first(), b, request, tags);
    }
}

/// The rule that is told to block a request is the line of one that does, and the exception
/// that is told to let it through is the line of an exception that applies to it, where
/// lines are kept and rules are not joined.
pub proof fn told_rules_are_lines(
    lines: Seq<Seq<char>>,
    tags: Set<Seq<char>>,
    resources: Map<Seq<char>, RedirectModel>,
    request: RequestModel,
    matched_rule: bool,
    force: bool,
)
    ensures
        ({
            let verdict = list_blocker(lines, true, false, tags, resources).verdict(
                request,
                matched_rule,
                force,
            );
            &&& verdict.filter matches Some(text) ==> exists|rule: NetworkRule| #[trigger]
                rule_holds(lines, true, tags, request, rule) && is_verdict_rule(rule)
                    && !rule.mask.exception && rule.shown() == text
            &&& verdict.exception matches Some(text) ==> exists|rule: NetworkRule| #[trigger]
                rule_holds(lines, true, tags, request, rule) && is_verdict_rule(rule)
                    && rule.mask.exception && rule.shown() == text
        }),
{
    let blocker = list_blocker(lines, true, false, tags, resources);
    let verdict = blocker.verdict(request, matched_rule, force);
    if verdict.filter is Some {
        let rule = blocker.blocking_rule(request, matched_rule)->0;
        lemma_first_match(blocker.importants, request, tags);
        lemma_first_match(blocker.tagged, request, tags);
        lemma_first_match(blocker.filters, request, tags);
        if blocker.importants.contains(rule) {
            lemma_stored_rule(lines, rule, Slot::Important);
        } else if blocker.tagged.contains(rule) {
            lemma_stored_rule(lines, rule, Slot::Tagged);
        } else {
            lemma_stored_rule(lines, rule, Slot::Plain);
        }
        assert(rule_holds(lines, true, tags, request, rule));
    }
    if verdict.exception is Some {
        let rule = blocker.letting_exception(request, matched_rule, force)->0;
        lemma_first_match(blocker.exceptions, request, tags);
        lemma_stored_rule(lines, rule, Slot::Exception);
        assert(rule_holds(lines, true, tags, request, rule));
    }
}

proof fn lemma_stored_rule(lines: Seq<Seq<char>>, rule: NetworkRule, slot: Slot)
    requires
        slot_rules(lines_set(lines, FilterFormat::Standard, true).network, slot).contains(rule),
    ensures
        some_line_is(lines, true, rule),
        !rule.mask.bad_filter,
        !is_taken_out(lines, true, rule),
        slot_of(rule) == slot,
{
    let all = lines_set(lines, FilterFormat::Standard, true).network;
    lemma_filter_contains(all, in_slot(bad_rules(all), slot), rule);
    lemma_line_is(lines, true, rule);
    lemma_kept(lines, true, rule);
}

/// Generic cosmetic rules are left out on a page if and only if a line against them applies
/// to the request for it.
pub proof fn lines_against_generic_hiding(
    lines: Seq<Seq<char>>,
    debug: bool,
    optimize: bool,
    tags: Set<Seq<char>>,
    resources: Map<Seq<char>, RedirectModel>,
    request: RequestModel,
)
    ensures
        list_blocker(lines, debug, optimize, tags, resources).hides_no_generics(request)
            <==> exists|rule: NetworkRule| #[trigger]
            rule_holds(lines, debug, tags, request, rule) && rule.mask.generic_hide
                && !rule.mask.csp,
{
    let blocker = list_blocker(lines, debug, optimize, tags, resources);
    lemma_slot_match(lines, debug, optimize, tags, request, Slot::GenericHide);
    lemma_first_match(blocker.generic_hide, request, tags);
    if exists|rule: NetworkRule| #[trigger]
        rule_holds(lines, debug, tags, request, rule) && rule.mask.generic_hide && !rule.mask.csp {
        let rule = choose|rule: NetworkRule| #[trigger]
            rule_holds(lines, debug, tags, request, rule) && rule.mask.generic_hide
                && !rule.mask.csp;
        assert(slot_of(rule) == Slot::GenericHide);
    }
    if blocker.hides_no_generics(request) {
        let rule = choose|rule: NetworkRule| #[trigger]
            rule_holds(lines, debug, tags, request, rule) && slot_of(rule) == Slot::GenericHide;
        assert(rule.mask.generic_hide && !rule.mask.csp);
    }
}

/// A rule of the list redirects a request.
pub open spec fn is_redirected_by(
    lines: Seq<Seq<char>>,
    debug: bool,
    tags: Set<Seq<char>>,
    request: RequestModel,
    rule: NetworkRule,
) -> bool {
    rule_holds(lines, debug, tags, request, rule) && rule.redirect is Some
}

proof fn lemma_redirecting(
    lines: Seq<Seq<char>>,
    debug: bool,
    tags: Set<Seq<char>>,
    request: RequestModel,
    rule: NetworkRule,
)
    ensures
        all_matches(
            redirect_rules(lines_set(lines, FilterFormat::Standard, debug).network),
            request,
            tags,
        ).contains(rule) <==> is_redirected_by(lines, debug, tags, request, rule),
{
    let all = lines_set(lines, FilterFormat::Standard, debug).network;
    lemma_filter_contains(redirect_rules(all), matching(request, tags), rule);
    lemma_filter_contains(all, redirecting(bad_rules(all)), rule);
    lemma_line_is(lines, debug, rule);
    lemma_kept(lines, debug, rule);
}

/// A request is answered with a resource that a line names which redirects it: with the
/// address of the form `data:`, its media type, `;base64,` and its contents. It is not
/// where no line redirects it, nor where one that makes an exception does; and it is where
/// lines do, none makes an exception, and every resource that they name is there.
pub proof fn lines_redirect_requests(
    lines: Seq<Seq<char>>,
    debug: bool,
    optimize: bool,
    tags: Set<Seq<char>>,
    resources: Map<Seq<char>, RedirectModel>,
    request: RequestModel,
)
    ensures
        ({
            let answer = list_blocker(lines, debug, optimize, tags, resources).redirection(request);
            let some = exists|rule: NetworkRule| #[trigger]
                is_redirected_by(lines, debug, tags, request, rule);
            let excepted = exists|rule: NetworkRule| #[trigger]
                is_redirected_by(lines, debug, tags, request, rule) && rule.mask.exception;
            let there = forall|rule: NetworkRule| #[trigger]
                is_redirected_by(lines, debug, tags, request, rule) ==> resources.contains_key(
                    rule.redirect->0,
                );
            &&& !some || excepted ==> answer is None
            &&& some && !excepted && there ==> answer is Some
            &&& answer matches Some(text) ==> exists|rule: NetworkRule| #[trigger]
                is_redirected_by(lines, debug, tags, request, rule) && resources.contains_key(
                    rule.redirect->0,
                ) && text == "data:"@ + resources[rule.redirect->0].content_type + ";base64,"@
                    + resources[rule.redirect->0].data
        }),
{
    let all = lines_set(lines, FilterFormat::Standard, debug).network;
    let list = all_matches(redirect_rules(all), request, tags);
    let answer = list_blocker(lines, debug, optimize, tags, resources).redirection(request);
    assert forall|rule: NetworkRule| #[trigger]
        is_redirected_by(lines, debug, tags, request, rule) == list.contains(rule) by {
        lemma_redirecting(lines, debug, tags, request, rule);
    }
    if list.len() > 0 {
        assert(list.contains(list[0]));
        assert(is_redirected_by(lines, debug, tags, request, list[0]));
    }
    if exists|rule: NetworkRule| #[trigger]
        is_redirected_by(lines, debug, tags, request, rule) && rule.mask.exception {
        let rule = choose|rule: NetworkRule| #[trigger]
            is_redirected_by(lines, debug, tags, request, rule) && rule.mask.exception;
        assert(list.contains(rule));
        let i = choose|i: int| 0 <= i < list.len() && list[i] == rule;
        assert(list[i].mask.exception);
    }
    if has_exception(list) {
        let i = choose|i: int| 0 <= i < list.len() && (#[trigger] list[i]).mask.exception;
        assert(list.contains(list[i]));
        assert(is_redirected_by(lines, debug, tags, request, list[i]));
    }
}

/// A rule of the list speaks of policies for a request.
pub open spec fn has_policy(
    lines: Seq<Seq<char>>,
    debug: bool,
    tags: Set<Seq<char>>,
    request: RequestModel,
    rule: NetworkRule,
) -> bool {
    rule_holds(lines, debug, tags, request, rule) && rule.mask.csp
}

proof fn lemma_policies(
    lines: Seq<Seq<char>>,
    debug: bool,
    tags: Set<Seq<char>>,
    request: RequestModel,
    rule: NetworkRule,
)
    ensures
        all_matches(
            slot_rules(lines_set(lines, FilterFormat::Standard, debug).network, Slot::Csp),
            request,
            tags,
        ).contains(rule) <==> has_policy(lines, debug, tags, request, rule),
{
    let all = lines_set(lines, FilterFormat::Standard, debug).network;
    lemma_filter_contains(slot_rules(all, Slot::Csp), matching(request, tags), rule);
    lemma_filter_contains(all, in_slot(bad_rules(all), Slot::Csp), rule);
    lemma_line_is(lines, debug, rule);
    lemma_kept(lines, debug, rule);
}

/// A policy is added to the answer to a request: a line adds it and none takes it back.
pub open spec fn is_policy(
    lines: Seq<Seq<char>>,
    debug: bool,
    tags: Set<Seq<char>>,
    request: RequestModel,
    policy: Seq<char>,
) -> bool {
    &&& exists|rule: NetworkRule| #[trigger]
        has_policy(lines, debug, tags, request, rule) && !rule.mask.exception && rule.csp == Some(
            policy,
        )
    &&& !exists|rule: NetworkRule| #[trigger]
        has_policy(lines, debug, tags, request, rule) && rule.mask.exception && rule.csp == Some(
            policy,
        )
}

/// The policies for a document or a subdocument are those that lines add and none takes
/// back, each once, with commas between them; there are none where an exception takes all
/// of them back, and none for other requests.
pub proof fn lines_add_policies(
    lines: Seq<Seq<char>>,
    debug: bool,
    optimize: bool,
    tags: Set<Seq<char>>,
    resources: Map<Seq<char>, RedirectModel>,
    request: RequestModel,
) -> (found: Seq<Seq<char>>)
    ensures
        found.no_duplicates(),
        forall|policy: Seq<char>| #[trigger]
            found.contains(policy) <==> is_policy(lines, debug, tags, request, policy),
        list_blocker(lines, debug, optimize, tags, resources).csp_directives(request) == if (
        request.request_type is Document || request.request_type is Subdocument) && found.len() > 0
            && !exists|rule: NetworkRule| #[trigger]
            has_policy(lines, debug, tags, request, rule) && rule.mask.exception && rule.csp is None {
            Some(join(found, seq![',']))
        } else {
            None
        },
{
    let all = lines_set(lines, FilterFormat::Standard, debug).network;
    let list = all_matches(slot_rules(all, Slot::Csp), request, tags);
    let found = policies(list);
    let f = |r: NetworkRule|
        match added_policy(r) {
            Some(policy) => if policy_taken_back(list, policy) {
                None
            } else {
                Some(policy)
            },
            None => None,
        };
    reveal_strlit(",");
    assert(","@ =~= seq![',']);
    assert forall|rule: NetworkRule| #[trigger]
        has_policy(lines, debug, tags, request, rule) == list.contains(rule) by {
        lemma_policies(lines, debug, tags, request, rule);
    }
    assert(found == crate::text::unique(list.filter_map(f)));
    lemma_unique(list.filter_map(f));
    assert forall|policy: Seq<char>| #[trigger]
        found.contains(policy) <==> is_policy(lines, debug, tags, request, policy) by {
        lemma_filter_map_contains(list, f, policy);
        if found.contains(policy) {
            let i = choose|i: int| 0 <= i < list.len() && f(#[trigger] list[i]) == Some(policy);
            assert(list.contains(list[i]));
            assert(has_policy(lines, debug, tags, request, list[i]));
            if exists|rule: NetworkRule| #[trigger]
                has_policy(lines, debug, tags, request, rule) && rule.mask.exception && rule.csp
                    == Some(policy) {
                let rule = choose|rule: NetworkRule| #[trigger]
                    has_policy(lines, debug, tags, request, rule) && rule.mask.exception
                        && rule.csp == Some(policy);
                let k = choose|k: int| 0 <= k < list.len() && list[k] == rule;
                assert(list[k].mask.exception && list[k].csp == Some(policy));
                assert(policy_taken_back(list, policy));
            }
        }
        if is_policy(lines, debug, tags, request, policy) {
            let rule = choose|rule: NetworkRule| #[trigger]
                has_policy(lines, debug, tags, request, rule) && !rule.mask.exception && rule.csp
                    == Some(policy);
            let i = choose|i: int| 0 <= i < list.len() && list[i] == rule;
            if policy_taken_back(list, policy) {
                let k = choose|k: int|
                    0 <= k < list.len() && (#[trigger] list[k]).mask.exception && list[k].csp
                        == Some(policy);
                assert(list.contains(list[k]));
                assert(has_policy(lines, debug, tags, request, list[k]));
            }
            assert(f(list[i]) == Some(policy));
        }
    }
    if all_policies_taken_back(list) {
        let i = choose|i: int|
            0 <= i < list.len() && (#[trigger] list[i]).mask.exception && list[i].csp is None;
        assert(list.contains(list[i]));
        assert(has_policy(lines, debug, tags, request, list[i]));
    }
    if exists|rule: NetworkRule| #[trigger]
        has_policy(lines, debug, tags, request, rule) && rule.mask.exception && rule.csp is None {
        let rule = choose|rule: NetworkRule| #[trigger]
            has_policy(lines, debug, tags, request, rule) && rule.mask.exception && rule.csp is None;
        let i = choose|i: int| 0 <= i < list.len() && list[i] == rule;
        assert(list[i].mask.exception && list[i].csp is None);
    }
    found
}

/// Rules with others that redirect.
pub open spec fn redirecting_by(blocker: BlockerModel, rules: Seq<NetworkRule>) -> BlockerModel {
    BlockerModel { redirects: rules, ..blocker }
}

/// Of rules that redirect a request the first counts: where some of the first list do and
/// none of either makes an exception, the second changes nothing.
pub proof fn the_first_redirection_counts(
    blocker: BlockerModel,
    a: Seq<NetworkRule>,
    b: Seq<NetworkRule>,
    request: RequestModel,
)
    requires
        any_match(a, request, blocker.tags),
        forall|i: int|
            0 <= i < b.len() && (#[trigger] b[i]).in_force(blocker.tags) && b[i].matches(request)
                ==> !b[i].mask.exception,
    ensures
        redirecting_by(blocker, a + b).redirection(request) == redirecting_by(
            blocker,
            a,
        ).redirection(request),
{
    let f = matching(request, blocker.tags);
    let x = all_matches(a, request, blocker.tags);
    let y = all_matches(b, request, blocker.tags);
    let z = all_matches(a + b, request, blocker.tags);
    Seq::filter_distributes_over_add(a, b, f);
    assert(z =~= x + y);
    let i = choose|i: int|
        0 <= i < a.len() && (#[trigger] a[i]).in_force(blocker.tags) && a[i].matches(request);
    lemma_filter_contains(a, f, a[i]);
    assert(a.contains(a[i]));
    assert(x.contains(a[i]));
    assert(x.len() > 0);
    assert(z[0] == x[0]);
    if has_exception(x) {
        let k = choose|k: int| 0 <= k < x.len() && (#[trigger] x[k]).mask.exception;
        assert(z[k] == x[k]);
    }
    if has_exception(z) {
        let k = choose|k: int| 0 <= k < z.len() && (#[trigger] z[k]).mask.exception;
        if k < x.len() {
            assert(x[k] == z[k]);
        } else {
            let rule = y[k - x.len()];
            assert(y.contains(rule));
            lemma_filter_contains(b, f, rule);
            let m = choose|m: int| 0 <= m < b.len() && b[m] == rule;
            assert(b[m].in_force(blocker.tags) && b[m].matches(request));
        }
    }
}

/// The rule that is told to block a request is an important one where one applies; else
/// one with a tag where one applies; else another.
pub proof fn told_rules_have_their_rank(
    blocker: BlockerModel,
    request: RequestModel,
    matched_rule: bool,
)
    ensures
        blocker.blocking_rule(request, matched_rule) matches Some(rule) ==> {
            &&& any_match(blocker.importants, request, blocker.tags) ==> Some(rule) == first_match(
                blocker.importants,
                request,
                blocker.tags,
            )
            &&& !any_match(blocker.importants, request, blocker.tags) && any_match(
                blocker.tagged,
                request,
                blocker.tags,
            ) ==> Some(rule) == first_match(blocker.tagged, request, blocker.tags)
            &&& !any_match(blocker.importants, request, blocker.tags) && !any_match(
                blocker.tagged,
                request,
                blocker.tags,
            ) ==> Some(rule) == first_match(blocker.filters, request, blocker.tags)
        },
{
    lemma_first_match(blocker.importants, request, blocker.tags);
    lemma_first_match(blocker.tagged, request, blocker.tags);
    lemma_first_match(blocker.filters, request, blocker.tags);
}

/// A rule of two shows the lines of both, one after the other.
pub proof fn joined_rules_show_both_lines(a: NetworkRule, b: NetworkRule)
    requires
        a.raw_line is Some && b.raw_line is Some,
    ensures
        joined(a, b).shown() == a.shown() + seq![' ', '<', '+', '>', ' '] + b.shown(),
{
    reveal_strlit(" <+> ");
    assert(" <+> "@ =~= seq![' ', '<', '+', '>', ' ']);
}

/// What is no request is not blocked, and the error is told.
pub proof fn what_is_no_request_passes()
    ensures
        !parse_failure().matched && !parse_failure().important,
        parse_failure().redirect is None && parse_failure().exception is None,
        parse_failure().filter is None && parse_failure().error is Some,
        !no_verdict().matched && !no_verdict().important,
        no_verdict().redirect is None && no_verdict().exception is None,
        no_verdict().filter is None && no_verdict().error is None,
{
}

/// Neighbours that differ in their patterns alone become one rule, with the patterns of
/// both; others stay apart.
pub proof fn neighbours_are_joined(list: Seq<NetworkRule>, a: NetworkRule, b: NetworkRule)
    ensures
        a.frame() == b.frame() ==> {
            &&& fuse(seq![a, b]).len() == 1
            &&& fuse(seq![a, b])[0].patterns == a.patterns + b.patterns
        },
        a.frame() != b.frame() ==> fuse(seq![a, b]) == seq![a, b],
        fuse(list.push(a)).len() > 0,
        fuse(list.push(a)).len() == fuse(list).len() + if fuse(list).len() > 0 && fuse(
            list,
        ).last().frame() == a.frame() {
            0int
        } else {
            1int
        },
{
    let none = Seq::<NetworkRule>::empty();
    let one = seq![a];
    let two = seq![a, b];
    assert(two.drop_last() =~= one && two.last() == b);
    assert(one.drop_last() =~= none && one.last() == a);
    assert(fuse(none) =~= none);
    assert(fuse(one) =~= one);
    assert(list.push(a).drop_last() =~= list && list.push(a).last() == a);
    if a.frame() == b.frame() {
        assert(fuse(two) =~= one.drop_last().push(joined(a, b)));
    } else {
        assert(fuse(two) =~= two);
    }
}

} // verus!

//! What holds of every engine.

use vstd::prelude::*;

use crate::blocker::{
    added_policy, all_matches, all_policies_taken_back, bad_rules, blocker_of, cancels,
    data_address, first_match, has_exception, in_slot, kept, matching, no_verdict, policies,
    policy_taken_back, redirect_rules, redirecting, slot_of, slot_rules, without_line, BlockerModel,
    Slot, Verdict,
};
use crate::cosmetic_filter_cache::{
    excepted_selector, hidden_selector, is_unkeyed, needs_name, taken_back, CosmeticModel,
};
use crate::data_format::{grouped_bytes, grouped_data_items, gzip_mark, raw_bytes, DataModel};
use crate::engine::{lines_set, EngineModel};
use crate::filters::cosmetic::{selector_key, CosmeticAction, CosmeticRule};
use crate::filters::network::NetworkRule;
use crate::lists::{parse_line, FilterFormat, FilterParseError, Rule, RuleSet};
use crate::msgpack::{written, Item};
use crate::optimizer::{any_match, fuse, held_by, holds, joined, lemma_fuse_match, stored};
use crate::outside::gzip_data;
use crate::request::{RequestModel, RequestType};
use crate::resources::{script_name, with_names, RedirectModel, ResourceModel};
use crate::seqs::{
    lemma_contains_pushed, lemma_filter_contains, lemma_filter_filter, lemma_filter_map_contains,
    lemma_filter_map_take, lemma_map_filter,
};
use crate::text::lemma_unique;

verus! {

/// The first rule that applies is one of the list, in force, and there where some
/// rule of the list is in force and applies.
pub proof fn lemma_first_match(
    list: Seq<NetworkRule>,
    request: RequestModel,
    tags: Set<Seq<char>>,
)
    ensures
        first_match(list, request, tags) is Some <==> any_match(list, request, tags),
        first_match(list, request, tags) matches Some(rule) ==> {
            &&& list.contains(rule)
            &&& rule.in_force(tags)
            &&& rule.matches(request)
        },
    decreases list.len(),
{
    if list.len() > 0 {
        let rest = list.drop_first();
        lemma_first_match(rest, request, tags);
        if list[0].in_force(tags) && list[0].matches(request) {
            assert(list.contains(list[0]));
        } else {
            if any_match(list, request, tags) {
                let i = choose|i: int|
                    0 <= i < list.len() && (#[trigger] list[i]).in_force(tags) && list[i].matches(
                        request,
                    );
                assert(rest[i - 1] == list[i]);
            }
            if any_match(rest, request, tags) {
                let i = choose|i: int|
                    0 <= i < rest.len() && (#[trigger] rest[i]).in_force(tags) && rest[i].matches(
                        request,
                    );
                assert(list[i + 1] == rest[i]);
            }
            if first_match(rest, request, tags) is Some {
                let rule = first_match(rest, request, tags)->0;
                let i = choose|i: int| 0 <= i < rest.len() && rest[i] == rule;
                assert(list[i + 1] == rule);
            }
        }
    }
}

/// A request is blocked if and only if rules apply to its scheme, and an important
/// rule applies to it, or some other rule does, here or before, and no exception.
pub proof fn blocked_requests(
    blocker: BlockerModel,
    request: RequestModel,
    matched_rule: bool,
    force: bool,
)
    ensures
        blocker.verdict(request, matched_rule, force).matched <==> {
            let important = any_match(blocker.importants, request, blocker.tags);
            let other = any_match(blocker.tagged, request, blocker.tags) || any_match(
                blocker.filters,
                request,
                blocker.tags,
            ) || matched_rule;
            let exception = any_match(blocker.exceptions, request, blocker.tags);
            request.is_supported && (important || (other && !exception))
        },
{
    lemma_first_match(blocker.importants, request, blocker.tags);
    lemma_first_match(blocker.tagged, request, blocker.tags);
    lemma_first_match(blocker.filters, request, blocker.tags);
    lemma_first_match(blocker.exceptions, request, blocker.tags);
}

/// No exception lets a request through to which an important rule applies.
pub proof fn important_rules_beat_exceptions(
    blocker: BlockerModel,
    request: RequestModel,
    matched_rule: bool,
    force: bool,
)
    requires
        request.is_supported,
        any_match(blocker.importants, request, blocker.tags),
    ensures
        ({
            let verdict = blocker.verdict(request, matched_rule, force);
            verdict.matched && verdict.important && verdict.exception is None && verdict.filter is Some
        }),
{
    lemma_first_match(blocker.importants, request, blocker.tags);
}

/// An exception lets a request through to which no important rule applies. It is
/// reported where another rule applies, here or before, or where it is asked for.
pub proof fn exceptions_beat_other_rules(
    blocker: BlockerModel,
    request: RequestModel,
    matched_rule: bool,
    force: bool,
)
    requires
        request.is_supported,
        !any_match(blocker.importants, request, blocker.tags),
        any_match(blocker.exceptions, request, blocker.tags),
    ensures
        ({
            let verdict = blocker.verdict(request, matched_rule, force);
            let other = any_match(blocker.tagged, request, blocker.tags) || any_match(
                blocker.filters,
                request,
                blocker.tags,
            ) || matched_rule;
            !verdict.matched && !verdict.important && (verdict.exception is Some <==> other || force)
        }),
{
    lemma_first_match(blocker.importants, request, blocker.tags);
    lemma_first_match(blocker.tagged, request, blocker.tags);
    lemma_first_match(blocker.filters, request, blocker.tags);
    lemma_first_match(blocker.exceptions, request, blocker.tags);
}

/// A request under a scheme that rules do not apply to passes, whatever the rules
/// are.
pub proof fn other_schemes_pass(
    blocker: BlockerModel,
    request: RequestModel,
    matched_rule: bool,
    force: bool,
)
    requires
        !request.is_supported,
    ensures
        blocker.verdict(request, matched_rule, force) == no_verdict(),
{
}

/// Neither the rule that blocks a request nor the exception that lets it through
/// has a tag that is not enabled.
pub proof fn tagged_rules_wait_for_their_tag(
    blocker: BlockerModel,
    request: RequestModel,
    matched_rule: bool,
    force: bool,
)
    ensures
        blocker.blocking_rule(request, matched_rule) matches Some(rule) ==> (rule.tag matches Some(
            tag,
        ) ==> blocker.tags.contains(tag)),
        blocker.letting_exception(request, matched_rule, force) matches Some(rule) ==> (
        rule.tag matches Some(tag) ==> blocker.tags.contains(tag)),
{
    lemma_first_match(blocker.importants, request, blocker.tags);
    lemma_first_match(blocker.tagged, request, blocker.tags);
    lemma_first_match(blocker.filters, request, blocker.tags);
    lemma_first_match(blocker.exceptions, request, blocker.tags);
}

/// Policies are added to documents and subdocuments alone.
pub proof fn policies_are_for_documents(blocker: BlockerModel, request: RequestModel)
    requires
        request.request_type != RequestType::Document,
        request.request_type != RequestType::Subdocument,
    ensures
        blocker.csp_directives(request) is None,
{
}

/// What a request is answered with is a resource of the engine, under the name
/// that a rule gives which is in force and applies to the request.
pub proof fn redirections_name_a_resource(blocker: BlockerModel, request: RequestModel)
    requires
        blocker.redirection(request) is Some,
    ensures
        exists|i: int|
            0 <= i < blocker.redirects.len() && names_answer(
                blocker,
                #[trigger] blocker.redirects[i],
                request,
                blocker.redirection(request)->0,
            ),
{
    let list = all_matches(blocker.redirects, request, blocker.tags);
    let rule = list[0];
    assert(list.contains(rule));
    lemma_filter_contains(blocker.redirects, matching(request, blocker.tags), rule);
    let i = choose|i: int| 0 <= i < blocker.redirects.len() && blocker.redirects[i] == rule;
    assert(names_answer(blocker, blocker.redirects[i], request, blocker.redirection(request)->0));
}

/// A rule is in force, applies to a request, and names the resource that an
/// address holds.
pub open spec fn names_answer(
    blocker: BlockerModel,
    rule: NetworkRule,
    request: RequestModel,
    address: Seq<char>,
) -> bool {
    &&& rule.in_force(blocker.tags)
    &&& rule.matches(request)
    &&& rule.redirect matches Some(name) && blocker.resources.contains_key(name) && address
        == data_address(blocker.resources[name])
}

/// To enable tags that were not enabled, and then to disable them, changes nothing.
pub proof fn disabling_undoes_enabling(engine: EngineModel, tags: Set<Seq<char>>)
    requires
        engine.blocker.tags.disjoint(tags),
    ensures
        ({
            let enabled = engine.with_tags(engine.blocker.tags.union(tags));
            enabled.with_tags(enabled.blocker.tags.difference(tags)) == engine
        }),
{
    let enabled = engine.with_tags(engine.blocker.tags.union(tags));
    assert(enabled.blocker.tags.difference(tags) =~= engine.blocker.tags);
}

/// To use tags is to disable those that are enabled, and then to enable the tags.
pub proof fn using_replaces_tags(engine: EngineModel, tags: Set<Seq<char>>)
    ensures
        ({
            let none = engine.with_tags(engine.blocker.tags.difference(engine.blocker.tags));
            none.with_tags(none.blocker.tags.union(tags)) == engine.with_tags(tags)
        }),
{
    let none = engine.with_tags(engine.blocker.tags.difference(engine.blocker.tags));
    assert(none.blocker.tags.union(tags) =~= tags);
}

/// Rules of one format can be added in several parts as well as at once.
pub proof fn lists_add_up(
    set: RuleSet,
    first: Seq<Seq<char>>,
    second: Seq<Seq<char>>,
    format: FilterFormat,
)
    ensures
        set.with_lines(first + second, format) == set.with_lines(first, format).with_lines(
            second,
            format,
        ),
    decreases second.len(),
{
    if second.len() == 0 {
        assert(first + second =~= first);
    } else {
        lists_add_up(set, first, second.drop_last(), format);
        assert((first + second).drop_last() =~= first + second.drop_last());
        assert((first + second).last() == second.last());
    }
}

/// Two verdicts are the same, but for the rules that are shown.
pub open spec fn agree(a: Verdict, b: Verdict) -> bool {
    &&& a.matched == b.matched
    &&& a.important == b.important
    &&& a.redirect == b.redirect
    &&& a.exception is Some == b.exception is Some
    &&& a.filter is Some == b.filter is Some
    &&& a.error == b.error
}

/// The rules of a list, with tags enabled and resources to answer with.
pub open spec fn equipped(
    rules: Seq<NetworkRule>,
    optimize: bool,
    tags: Set<Seq<char>>,
    resources: Map<Seq<char>, RedirectModel>,
) -> BlockerModel {
    BlockerModel { tags, resources, ..blocker_of(rules, optimize) }
}

/// To join similar rules changes nothing of what becomes of a request, but for the
/// rules that are shown.
pub proof fn joining_rules_changes_no_verdict(
    rules: Seq<NetworkRule>,
    tags: Set<Seq<char>>,
    resources: Map<Seq<char>, RedirectModel>,
    request: RequestModel,
    matched_rule: bool,
    force: bool,
)
    ensures
        ({
            let joined = equipped(rules, true, tags, resources);
            let apart = equipped(rules, false, tags, resources);
            &&& agree(
                joined.verdict(request, matched_rule, force),
                apart.verdict(request, matched_rule, force),
            )
            &&& joined.csp_directives(request) == apart.csp_directives(request)
            &&& joined.hides_no_generics(request) == apart.hides_no_generics(request)
        }),
{
    let slots = seq![
        Slot::Exception,
        Slot::Important,
        Slot::Tagged,
        Slot::Plain,
        Slot::GenericHide,
    ];
    assert forall|i: int| 0 <= i < slots.len() implies first_match(
        fuse(slot_rules(rules, #[trigger] slots[i])),
        request,
        tags,
    ) is Some == first_match(slot_rules(rules, slots[i]), request, tags) is Some by {
        let list = slot_rules(rules, slots[i]);
        lemma_first_match(list, request, tags);
        lemma_first_match(fuse(list), request, tags);
        lemma_fuse_match(list, request, tags);
    }
    assert(slots[0] == Slot::Exception);
    assert(slots[1] == Slot::Important);
    assert(slots[2] == Slot::Tagged);
    assert(slots[3] == Slot::Plain);
    assert(slots[4] == Slot::GenericHide);
}

/// The rules of a list that take none back and are not taken back.
pub open spec fn left_standing(rules: Seq<NetworkRule>) -> Seq<NetworkRule> {
    rules.filter(|r: NetworkRule| kept(bad_rules(rules), r))
}

/// Rules that are taken back, and rules that take others back, are as if they
/// were not there.
pub proof fn bad_filters_take_rules_back(rules: Seq<NetworkRule>, optimize: bool)
    ensures
        blocker_of(rules, optimize) == blocker_of(left_standing(rules), optimize),
{
    let bad = bad_rules(rules);
    let p = |r: NetworkRule| kept(bad, r);
    let left = left_standing(rules);
    assert(left == rules.filter(p));
    let none = bad_rules(left);
    assert(none.len() == 0) by {
        if none.len() > 0 {
            let rule = none[0];
            assert(none.contains(rule));
            lemma_filter_contains(left, |r: NetworkRule| r.mask.bad_filter, rule);
            lemma_filter_contains(rules, p, rule);
            assert(p(rule));
        }
    }
    assert forall|slot: Slot| slot_rules(rules, slot) == #[trigger] slot_rules(left, slot) by {
        lemma_filter_filter(rules, p, in_slot(none, slot), in_slot(bad, slot));
    }
    lemma_filter_filter(rules, p, redirecting(none), redirecting(bad));
    assert(blocker_of(rules, optimize) =~= blocker_of(left, optimize));
}

/// The rules of a list without their lines.
pub open spec fn without_lines(rules: Seq<NetworkRule>) -> Seq<NetworkRule> {
    rules.map_values(|r: NetworkRule| without_line(r))
}

proof fn lemma_kept_without_lines(bad: Seq<NetworkRule>, rule: NetworkRule)
    ensures
        kept(without_lines(bad), rule) == kept(bad, rule),
        kept(bad, without_line(rule)) == kept(bad, rule),
{
    assert forall|i: int| 0 <= i < bad.len() implies cancels(#[trigger] bad[i], rule) == cancels(
        without_lines(bad)[i],
        rule,
    ) by {}
    if kept(without_lines(bad), rule) {
        assert forall|i: int| 0 <= i < bad.len() implies !cancels(#[trigger] bad[i], rule) by {
            assert(!cancels(without_lines(bad)[i], rule));
        }
    }
    if kept(bad, rule) {
        assert forall|i: int| 0 <= i < bad.len() implies !cancels(
            #[trigger] without_lines(bad)[i],
            rule,
        ) by {
            assert(!cancels(bad[i], rule));
        }
    }
}

proof fn lemma_slot_without_lines(rules: Seq<NetworkRule>, slot: Slot)
    ensures
        slot_rules(without_lines(rules), slot) == without_lines(slot_rules(rules, slot)),
        redirect_rules(without_lines(rules)) == without_lines(redirect_rules(rules)),
{
    let m = |r: NetworkRule| without_line(r);
    lemma_map_filter(rules, m, |r: NetworkRule| r.mask.bad_filter);
    let bad = bad_rules(rules);
    let stripped = bad_rules(without_lines(rules));
    assert(stripped == without_lines(bad));
    let p = in_slot(stripped, slot);
    assert forall|x: NetworkRule| #[trigger] in_slot(stripped, slot)(x) == in_slot(bad, slot)(x) by {
        lemma_kept_without_lines(bad, x);
    }
    assert(p =~= in_slot(bad, slot));
    assert forall|x: NetworkRule| p(#[trigger] m(x)) == p(x) by {
        lemma_kept_without_lines(stripped, x);
    }
    lemma_map_filter(rules, m, p);
    let q = redirecting(stripped);
    assert forall|x: NetworkRule| #[trigger] redirecting(stripped)(x) == redirecting(bad)(x) by {
        lemma_kept_without_lines(bad, x);
    }
    assert(q =~= redirecting(bad));
    assert forall|x: NetworkRule| q(#[trigger] m(x)) == q(x) by {
        lemma_kept_without_lines(stripped, x);
    }
    lemma_map_filter(rules, m, q);
}

proof fn lemma_fuse_without_lines(list: Seq<NetworkRule>)
    ensures
        fuse(without_lines(list)) == without_lines(fuse(list)),
    decreases list.len(),
{
    if list.len() == 0 {
        assert(fuse(without_lines(list)) =~= without_lines(fuse(list)));
    } else {
        let front = list.drop_last();
        let rule = list.last();
        lemma_fuse_without_lines(front);
        assert(without_lines(list).drop_last() =~= without_lines(front));
        assert(without_lines(list).last() == without_line(rule));
        let before = fuse(front);
        if before.len() > 0 {
            let last = before.last();
            assert(without_lines(before).last() == without_line(last));
            assert(without_line(last).frame() =~= last.frame());
            assert(without_line(rule).frame() =~= rule.frame());
            assert(joined(without_line(last), without_line(rule)) =~= without_line(
                joined(last, rule),
            ));
        }
        assert(fuse(without_lines(list)) =~= without_lines(fuse(list)));
    }
}

proof fn lemma_match_without_line(
    rule: NetworkRule,
    request: RequestModel,
    tags: Set<Seq<char>>,
)
    ensures
        without_line(rule).matches(request) == rule.matches(request),
        without_line(rule).in_force(tags) == rule.in_force(tags),
{
    let stripped = without_line(rule);
    assert(stripped.patterns == rule.patterns);
    assert(stripped.mask == rule.mask);
    assert(stripped.domains == rule.domains);
    assert(stripped.not_domains == rule.not_domains);
    assert(stripped.tag == rule.tag);
    assert(stripped.admits(request) == rule.admits(request));
}

proof fn lemma_first_match_without_lines(
    list: Seq<NetworkRule>,
    request: RequestModel,
    tags: Set<Seq<char>>,
)
    ensures
        first_match(without_lines(list), request, tags) == match first_match(list, request, tags) {
            Some(rule) => Some(without_line(rule)),
            None => None,
        },
    decreases list.len(),
{
    if list.len() > 0 {
        lemma_first_match_without_lines(list.drop_first(), request, tags);
        lemma_match_without_line(list[0], request, tags);
        assert(without_lines(list).drop_first() =~= without_lines(list.drop_first()));
    }
}

proof fn lemma_all_matches_without_lines(
    list: Seq<NetworkRule>,
    request: RequestModel,
    tags: Set<Seq<char>>,
)
    ensures
        all_matches(without_lines(list), request, tags) == without_lines(
            all_matches(list, request, tags),
        ),
{
    let m = |r: NetworkRule| without_line(r);
    let p = matching(request, tags);
    assert forall|x: NetworkRule| p(#[trigger] m(x)) == p(x) by {
        lemma_match_without_line(x, request, tags);
    }
    lemma_map_filter(list, m, p);
}

/// Two lists hold rules, in the same order, that do the same where they apply.
spec fn alike(a: Seq<NetworkRule>, b: Seq<NetworkRule>) -> bool {
    &&& a.len() == b.len()
    &&& forall|i: int|
        0 <= i < a.len() ==> (#[trigger] a[i]).mask == b[i].mask && a[i].csp == b[i].csp
            && a[i].redirect == b[i].redirect
}

proof fn lemma_alike_one_way(a: Seq<NetworkRule>, b: Seq<NetworkRule>, policy: Seq<char>)
    requires
        alike(a, b),
    ensures
        has_exception(a) ==> has_exception(b),
        all_policies_taken_back(a) ==> all_policies_taken_back(b),
        policy_taken_back(a, policy) ==> policy_taken_back(b, policy),
{
    if has_exception(a) {
        let i = choose|i: int| 0 <= i < a.len() && (#[trigger] a[i]).mask.exception;
        assert(b[i].mask.exception);
    }
    if all_policies_taken_back(a) {
        let i = choose|i: int|
            0 <= i < a.len() && (#[trigger] a[i]).mask.exception && a[i].csp is None;
        assert(b[i].mask.exception && b[i].csp is None);
    }
    if policy_taken_back(a, policy) {
        let i = choose|i: int|
            0 <= i < a.len() && (#[trigger] a[i]).mask.exception && a[i].csp == Some(policy);
        assert(b[i].mask.exception && b[i].csp == Some(policy));
    }
}

/// The policy that a rule adds, but for those that a list takes back.
spec fn policy_left(list: Seq<NetworkRule>) -> spec_fn(NetworkRule) -> Option<Seq<char>> {
    |r: NetworkRule|
        match added_policy(r) {
            Some(policy) => if policy_taken_back(list, policy) {
                None
            } else {
                Some(policy)
            },
            None => None,
        }
}

proof fn lemma_policies_alike(
    a: Seq<NetworkRule>,
    b: Seq<NetworkRule>,
    f: spec_fn(NetworkRule) -> Option<Seq<char>>,
)
    requires
        alike(a, b),
        forall|x: NetworkRule, y: NetworkRule|
            x.mask == y.mask && x.csp == y.csp ==> #[trigger] f(x) == #[trigger] f(y),
    ensures
        a.filter_map(f) == b.filter_map(f),
    decreases a.len(),
{
    if a.len() > 0 {
        let n = a.len() as int;
        lemma_policies_alike(a.drop_last(), b.drop_last(), f);
        lemma_filter_map_take(a, n - 1, f);
        lemma_filter_map_take(b, n - 1, f);
        assert(a.take(n) =~= a && b.take(n) =~= b);
        assert(a.take(n - 1) =~= a.drop_last() && b.take(n - 1) =~= b.drop_last());
        assert(f(a[n - 1]) == f(b[n - 1]));
    } else {
        assert(a =~= b);
    }
}

/// Of lists that hold rules that do the same, the same policies are left, and both
/// have an exception or neither.
proof fn lemma_alike(a: Seq<NetworkRule>, b: Seq<NetworkRule>)
    requires
        alike(a, b),
    ensures
        policies(a) == policies(b),
        all_policies_taken_back(a) == all_policies_taken_back(b),
        has_exception(a) == has_exception(b),
{
    assert forall|policy: Seq<char>| #[trigger]
        policy_taken_back(a, policy) == policy_taken_back(b, policy) by {
        lemma_alike_one_way(a, b, policy);
        lemma_alike_one_way(b, a, policy);
    }
    lemma_alike_one_way(a, b, Seq::empty());
    lemma_alike_one_way(b, a, Seq::empty());
    let f = policy_left(a);
    assert(f =~= policy_left(b));
    lemma_policies_alike(a, b, f);
}

/// To keep the lines of rules changes nothing of what becomes of a request, but
/// for the rules that are shown: without its line a rule is shown by a fixed word.
pub proof fn kept_lines_change_no_verdict(
    rules: Seq<NetworkRule>,
    optimize: bool,
    tags: Set<Seq<char>>,
    resources: Map<Seq<char>, RedirectModel>,
    request: RequestModel,
    matched_rule: bool,
    force: bool,
)
    ensures
        ({
            let with = equipped(rules, optimize, tags, resources);
            let without = equipped(without_lines(rules), optimize, tags, resources);
            let verdict = without.verdict(request, matched_rule, force);
            &&& agree(with.verdict(request, matched_rule, force), verdict)
            &&& verdict.filter is Some ==> verdict.filter == Some("NetworkFilter"@)
            &&& verdict.exception is Some ==> verdict.exception == Some("NetworkFilter"@)
            &&& with.csp_directives(request) == without.csp_directives(request)
            &&& with.hides_no_generics(request) == without.hides_no_generics(request)
        }),
{
    let with = equipped(rules, optimize, tags, resources);
    let without = equipped(without_lines(rules), optimize, tags, resources);
    assert forall|slot: Slot| #[trigger]
        stored(slot_rules(without_lines(rules), slot), optimize) == without_lines(
            stored(slot_rules(rules, slot), optimize),
        ) by {
        lemma_slot_without_lines(rules, slot);
        lemma_fuse_without_lines(slot_rules(rules, slot));
    }
    assert(without.importants == without_lines(with.importants));
    assert(without.exceptions == without_lines(with.exceptions));
    assert(without.tagged == without_lines(with.tagged));
    assert(without.filters == without_lines(with.filters));
    assert(without.generic_hide == without_lines(with.generic_hide));
    lemma_slot_without_lines(rules, Slot::Csp);
    lemma_first_match_without_lines(with.importants, request, tags);
    lemma_first_match_without_lines(with.exceptions, request, tags);
    lemma_first_match_without_lines(with.tagged, request, tags);
    lemma_first_match_without_lines(with.filters, request, tags);
    lemma_first_match_without_lines(with.generic_hide, request, tags);
    lemma_all_matches_without_lines(with.csp, request, tags);
    lemma_alike(
        all_matches(with.csp, request, tags),
        without_lines(all_matches(with.csp, request, tags)),
    );
    lemma_all_matches_without_lines(with.redirects, request, tags);
    lemma_alike(
        all_matches(with.redirects, request, tags),
        without_lines(all_matches(with.redirects, request, tags)),
    );
}

/// Whether lines are kept or not, the same lines give the same rules.
pub proof fn lines_are_all_that_is_kept(lines: Seq<Seq<char>>, format: FilterFormat)
    ensures
        lines_set(lines, format, false).network == without_lines(
            lines_set(lines, format, true).network,
        ),
        lines_set(lines, format, false).cosmetic == lines_set(lines, format, true).cosmetic,
        lines_set(lines, format, false).debug == false,
        lines_set(lines, format, true).debug == true,
    decreases lines.len(),
{
    reveal(parse_line);
    if lines.len() == 0 {
        assert(lines_set(lines, format, false).network =~= without_lines(
            lines_set(lines, format, true).network,
        ));
    } else {
        let front = lines.drop_last();
        lines_are_all_that_is_kept(front, format);
        let debug = lines_set(front, format, true);
        let plain = lines_set(front, format, false);
        match parse_line(lines.last(), true, format) {
            Ok(Rule::Network(rule)) => {
                assert(parse_line(lines.last(), false, format) == Ok::<Rule, FilterParseError>(
                    Rule::Network(without_line(rule)),
                ));
                assert(without_lines(debug.network.push(rule)) =~= plain.network.push(
                    without_line(rule),
                ));
            },
            _ => {},
        }
    }
}

proof fn lemma_held_by_joined(a: NetworkRule, b: NetworkRule, rule: NetworkRule)
    requires
        a.frame() == b.frame(),
    ensures
        held_by(a, rule) || held_by(b, rule) ==> held_by(joined(a, b), rule),
        rule.patterns.len() == 1 && held_by(joined(a, b), rule) ==> held_by(a, rule) || held_by(
            b,
            rule,
        ),
{
    let j = joined(a, b);
    assert(j.frame() =~= a.frame());
    if held_by(a, rule) || held_by(b, rule) {
        assert forall|k: int| 0 <= k < rule.patterns.len() implies j.patterns.contains(
            #[trigger] rule.patterns[k],
        ) by {
            let p = rule.patterns[k];
            if held_by(a, rule) {
                assert(a.patterns.contains(p));
                let i = choose|i: int| 0 <= i < a.patterns.len() && a.patterns[i] == p;
                assert(j.patterns[i] == p);
            } else {
                assert(b.patterns.contains(p));
                let i = choose|i: int| 0 <= i < b.patterns.len() && b.patterns[i] == p;
                assert(j.patterns[a.patterns.len() + i] == p);
            }
        }
    }
    if rule.patterns.len() == 1 && held_by(j, rule) {
        let p = rule.patterns[0];
        assert(j.patterns.contains(p));
        let i = choose|i: int| 0 <= i < j.patterns.len() && j.patterns[i] == p;
        if i < a.patterns.len() {
            assert(a.patterns[i] == p);
            assert(held_by(a, rule));
        } else {
            assert(b.patterns[i - a.patterns.len()] == p);
            assert(held_by(b, rule));
        }
    }
}

/// Compression keeps the rules that a list holds.
proof fn lemma_fuse_holds(list: Seq<NetworkRule>, rule: NetworkRule)
    ensures
        holds(list, rule) ==> holds(fuse(list), rule),
        rule.patterns.len() == 1 && holds(fuse(list), rule) ==> holds(list, rule),
    decreases list.len(),
{
    if list.len() > 0 {
        let front = list.drop_last();
        let x = list.last();
        lemma_fuse_holds(front, rule);
        let before = fuse(front);
        let after = fuse(list);
        let n = before.len() - 1;
        let joins = before.len() > 0 && before.last().frame() == x.frame();
        if joins {
            lemma_held_by_joined(before.last(), x, rule);
            assert(after[n] == joined(before[n], x));
            assert forall|i: int| 0 <= i < n implies after[i] == #[trigger] before[i] by {}
        } else {
            assert(after[n + 1] == x);
            assert forall|i: int| 0 <= i <= n implies after[i] == #[trigger] before[i] by {}
        }
        if holds(list, rule) {
            let i = choose|i: int| 0 <= i < list.len() && held_by(#[trigger] list[i], rule);
            if i < front.len() {
                assert(held_by(front[i], rule));
                let k = choose|k: int| 0 <= k < before.len() && held_by(#[trigger] before[k], rule);
                assert(held_by(after[k], rule));
            } else {
                assert(held_by(after[after.len() - 1], rule));
            }
        }
        if rule.patterns.len() == 1 && holds(after, rule) {
            let k = choose|k: int| 0 <= k < after.len() && held_by(#[trigger] after[k], rule);
            assert(list[list.len() - 1] == x);
            if k < after.len() - 1 || (joins && held_by(before[n], rule)) {
                assert(held_by(before[k], rule));
                let i = choose|i: int| 0 <= i < front.len() && held_by(#[trigger] front[i], rule);
                assert(held_by(list[i], rule));
            } else {
                assert(held_by(list[list.len() - 1], rule));
            }
        }
    }
}

/// The rules of a list that stand in a slot, whether or not they are joined.
proof fn lemma_slot(rules: Seq<NetworkRule>, optimize: bool, slot: Slot)
    ensures
        slot != Slot::Redirect && slot != Slot::Csp ==> blocker_of(rules, optimize).slot(slot)
            == stored(slot_rules(rules, slot), optimize),
        slot == Slot::Csp ==> blocker_of(rules, optimize).slot(slot) == slot_rules(rules, slot),
        slot == Slot::Redirect ==> blocker_of(rules, optimize).slot(slot) == redirect_rules(rules),
{
}

/// A rule that was added and is not taken back exists, whether or not its line
/// was kept, and whether or not similar rules are joined.
pub proof fn added_rules_exist(rules: Seq<NetworkRule>, optimize: bool, rule: NetworkRule)
    requires
        rules.contains(rule),
        kept(bad_rules(rules), rule),
        rule.mask.redirect_only ==> rule.redirect is Some,
    ensures
        blocker_of(rules, optimize).has_rule(without_line(rule)),
{
    let slot = slot_of(rule);
    let wanted = without_line(rule);
    assert(slot_of(wanted) == slot);
    assert(rule.frame() =~= wanted.frame());
    assert(held_by(rule, wanted)) by {
        assert forall|j: int| 0 <= j < wanted.patterns.len() implies rule.patterns.contains(
            #[trigger] wanted.patterns[j],
        ) by {
            assert(rule.patterns[j] == wanted.patterns[j]);
        }
    }
    lemma_slot(rules, optimize, slot);
    if slot == Slot::Redirect {
        lemma_filter_contains(rules, redirecting(bad_rules(rules)), rule);
        let list = redirect_rules(rules);
        let i = choose|i: int| 0 <= i < list.len() && list[i] == rule;
        assert(held_by(list[i], wanted));
    } else {
        lemma_filter_contains(rules, in_slot(bad_rules(rules), slot), rule);
        let list = slot_rules(rules, slot);
        let i = choose|i: int| 0 <= i < list.len() && list[i] == rule;
        assert(held_by(list[i], wanted));
        lemma_fuse_holds(list, wanted);
    }
}

/// A rule with one pattern exists only if a rule with its options and its pattern
/// was added and is not taken back.
pub proof fn existing_rules_were_added(
    rules: Seq<NetworkRule>,
    optimize: bool,
    rule: NetworkRule,
)
    requires
        rule.patterns.len() == 1,
        blocker_of(rules, optimize).has_rule(rule),
    ensures
        exists|i: int|
            0 <= i < rules.len() && kept(bad_rules(rules), #[trigger] rules[i]) && held_by(
                rules[i],
                rule,
            ),
{
    let slot = slot_of(rule);
    lemma_slot(rules, optimize, slot);
    let (p, list) = if slot == Slot::Redirect {
        (redirecting(bad_rules(rules)), redirect_rules(rules))
    } else {
        (in_slot(bad_rules(rules), slot), slot_rules(rules, slot))
    };
    lemma_fuse_holds(list, rule);
    assert(holds(list, rule));
    let k = choose|k: int| 0 <= k < list.len() && held_by(#[trigger] list[k], rule);
    let found = list[k];
    assert(list.contains(found));
    lemma_filter_contains(rules, p, found);
    let i = choose|i: int| 0 <= i < rules.len() && rules[i] == found;
    assert(p(found));
    assert(kept(bad_rules(rules), rules[i]) && held_by(rules[i], rule));
}

proof fn lemma_with_names<T>(
    map: Map<Seq<char>, T>,
    names: Seq<Seq<char>>,
    value: T,
    key: Seq<char>,
)
    ensures
        names.contains(key) ==> with_names(map, names, value).contains_key(key) && with_names(
            map,
            names,
            value,
        )[key] == value,
        !names.contains(key) ==> with_names(map, names, value).contains_key(key)
            == map.contains_key(key) && with_names(map, names, value)[key] == map[key],
    decreases names.len(),
{
    if names.len() > 0 {
        lemma_with_names(map, names.drop_last(), value, key);
        assert(names =~= names.drop_last().push(names.last()));
        lemma_contains_pushed(names.drop_last(), names.last(), key);
    }
}

/// A resource that makes an answer can be looked up, once it is added, under its
/// name and its aliases; what is under other names stays.
pub proof fn added_resources_are_found(
    engine: EngineModel,
    resource: ResourceModel,
    key: Seq<char>,
)
    requires
        resource.kind is Mime,
        resource.flaw() is None,
    ensures
        ({
            let before = engine.blocker.resources;
            let after = engine.with_resource(resource).blocker.resources;
            if key == resource.name || resource.aliases.contains(key) {
                after.contains_key(key) && after[key] == resource.answer()
            } else {
                after.contains_key(key) == before.contains_key(key) && after[key] == before[key]
            }
        }),
{
    lemma_contains_pushed(resource.aliases, resource.name, key);
    lemma_with_names(
        engine.blocker.resources,
        resource.aliases.push(resource.name),
        resource.answer(),
        key,
    );
}

/// A script can be called, once it is added, by its name and its aliases, all of
/// them without the ending `.js`; other scripts stay.
pub proof fn added_scripts_are_found(engine: EngineModel, resource: ResourceModel, key: Seq<char>)
    requires
        resource.is_scriptlet(),
        resource.flaw() is None,
    ensures
        ({
            let before = engine.cosmetics.scriptlets;
            let after = engine.with_resource(resource).cosmetics.scriptlets;
            let named = key == script_name(resource.name) || exists|i: int|
                0 <= i < resource.aliases.len() && key == script_name(#[trigger] resource.aliases[i]);
            if named {
                after.contains_key(key) && after[key] == resource.text()
            } else {
                after.contains_key(key) == before.contains_key(key) && after[key] == before[key]
            }
        }),
{
    let given = resource.aliases.push(resource.name);
    let names = given.map_values(|n: Seq<char>| script_name(n));
    lemma_with_names(engine.cosmetics.scriptlets, names, resource.text(), key);
    if names.contains(key) {
        let i = choose|i: int| 0 <= i < names.len() && names[i] == key;
        if i < resource.aliases.len() {
            assert(given[i] == resource.aliases[i]);
        }
    }
    if key == script_name(resource.name) {
        assert(names[resource.aliases.len() as int] == key);
    }
    if exists|i: int|
        0 <= i < resource.aliases.len() && key == script_name(#[trigger] resource.aliases[i]) {
        let i = choose|i: int|
            0 <= i < resource.aliases.len() && key == script_name(#[trigger] resource.aliases[i]);
        assert(names[i] == key);
    }
}

/// A flawed resource changes nothing.
pub proof fn flawed_resources_change_nothing(engine: EngineModel, resource: ResourceModel)
    requires
        resource.flaw() is Some,
    ensures
        engine.with_resource(resource) == engine,
{
}

/// To use resources does away with those that were there, and is to add them, one
/// after the other, to none.
pub proof fn using_replaces_resources(
    engine: EngineModel,
    resources: Seq<ResourceModel>,
    resource: ResourceModel,
)
    ensures
        engine.with_resource(resource).with_resources(resources) == engine.with_resources(
            resources,
        ),
        engine.with_resources(resources.push(resource)) == engine.with_resources(
            resources,
        ).with_resource(resource),
        engine.with_resources(Seq::empty()).blocker.resources == Map::<
            Seq<char>,
            RedirectModel,
        >::empty(),
        engine.with_resources(Seq::empty()).cosmetics.scriptlets == Map::<
            Seq<char>,
            Seq<char>,
        >::empty(),
{
    assert(resources.push(resource).drop_last() =~= resources);
}

/// A selector that is hidden on a page is not among the exceptions of the page.
pub proof fn hidden_selectors_are_not_excepted(
    cosmetics: CosmeticModel,
    host: Seq<char>,
    generichide: bool,
    selector: Seq<char>,
)
    requires
        cosmetics.page(host, generichide).hide_selectors.contains(selector),
    ensures
        !cosmetics.page(host, generichide).exceptions.contains(selector),
{
    lemma_page_hides(cosmetics, host, generichide, selector);
    lemma_exceptions(cosmetics, host, selector);
}

proof fn lemma_exceptions(cosmetics: CosmeticModel, host: Seq<char>, selector: Seq<char>)
    ensures
        cosmetics.exceptions(host).contains(selector) <==> taken_back(
            cosmetics.specific,
            CosmeticAction::Hide,
            selector,
            host,
        ),
{
    let rules = cosmetics.specific;
    let f = |r: CosmeticRule| excepted_selector(r, host);
    lemma_unique(rules.filter_map(f));
    lemma_filter_map_contains(rules, f, selector);
    if taken_back(rules, CosmeticAction::Hide, selector, host) {
        let i = choose|i: int|
            0 <= i < rules.len() && (#[trigger] rules[i]).takes_back_on(host) && rules[i].action
                == CosmeticAction::Hide && rules[i].selector == selector;
        assert(f(rules[i]) == Some(selector));
    }
    if rules.filter_map(f).contains(selector) {
        let i = choose|i: int| 0 <= i < rules.len() && f(#[trigger] rules[i]) == Some(selector);
        assert(rules[i].takes_back_on(host) && rules[i].action == CosmeticAction::Hide
            && rules[i].selector == selector);
    }
}

/// A rule hides a selector on a host and none takes that back.
pub open spec fn hidden_by_rule(
    cosmetics: CosmeticModel,
    host: Seq<char>,
    selector: Seq<char>,
) -> bool {
    exists|i: int|
        0 <= i < cosmetics.specific.len() && hidden_selector(
            cosmetics.specific,
            #[trigger] cosmetics.specific[i],
            host,
        ) == Some(selector)
}

/// The selectors that are hidden on a page are those of rules that are in effect there, and
/// the generic ones that are neither found by a name nor taken back.
pub proof fn lemma_page_hides(
    cosmetics: CosmeticModel,
    host: Seq<char>,
    generichide: bool,
    selector: Seq<char>,
)
    ensures
        cosmetics.page(host, generichide).hide_selectors.contains(selector) <==> {
            ||| hidden_by_rule(cosmetics, host, selector)
            ||| {
                &&& !generichide
                &&& cosmetics.generic.contains(selector)
                &&& is_unkeyed(selector)
                &&& !taken_back(cosmetics.specific, CosmeticAction::Hide, selector, host)
            }
        },
{
    let rules = cosmetics.specific;
    let f = |r: CosmeticRule| hidden_selector(rules, r, host);
    let p = |s: Seq<char>| is_unkeyed(s) && !taken_back(rules, CosmeticAction::Hide, s, host);
    let a = cosmetics.specific_hides(host);
    let b = cosmetics.generic_hides(host);
    lemma_unique(a);
    lemma_unique(a + b);
    lemma_filter_map_contains(rules, f, selector);
    lemma_filter_contains(cosmetics.generic, p, selector);
    if a.contains(selector) {
        let i = choose|i: int| 0 <= i < a.len() && a[i] == selector;
        assert((a + b)[i] == selector);
    }
    if b.contains(selector) {
        let i = choose|i: int| 0 <= i < b.len() && b[i] == selector;
        assert((a + b)[a.len() + i] == selector);
    }
    if (a + b).contains(selector) {
        let i = choose|i: int| 0 <= i < (a + b).len() && (a + b)[i] == selector;
        if i < a.len() {
            assert(a[i] == selector);
        } else {
            assert(b[i - a.len()] == selector);
        }
    }
}

/// On a page that generic rules are not to be applied to, none but rules for its
/// host hide anything.
pub proof fn generic_rules_can_be_left_out(
    cosmetics: CosmeticModel,
    host: Seq<char>,
    selector: Seq<char>,
)
    ensures
        cosmetics.page(host, true).hide_selectors.contains(selector) <==> hidden_by_rule(
            cosmetics,
            host,
            selector,
        ),
{
    lemma_page_hides(cosmetics, host, true, selector);
}

/// The generic selectors for some names are those that need one of the names and
/// are not excepted.
pub proof fn keyed_selectors(
    cosmetics: CosmeticModel,
    mark: char,
    names: Seq<Seq<char>>,
    exceptions: Seq<Seq<char>>,
    selector: Seq<char>,
)
    ensures
        cosmetics.keyed(mark, names, exceptions).contains(selector) <==> {
            &&& cosmetics.generic.contains(selector)
            &&& selector_key(selector, mark) is Some
            &&& names.contains(selector_key(selector, mark)->0)
            &&& !exceptions.contains(selector)
        },
    decreases names.len(),
{
    let all = cosmetics.keyed(mark, names, exceptions);
    if names.len() > 0 {
        let front = names.drop_last();
        let last = names.last();
        let a = cosmetics.keyed(mark, front, exceptions);
        let b = cosmetics.generic.filter(needs_name(mark, last, exceptions));
        keyed_selectors(cosmetics, mark, front, exceptions, selector);
        lemma_filter_contains(cosmetics.generic, needs_name(mark, last, exceptions), selector);
        if selector_key(selector, mark) is Some {
            assert(names =~= front.push(last));
            lemma_contains_pushed(front, last, selector_key(selector, mark)->0);
        }
        if a.contains(selector) {
            let i = choose|i: int| 0 <= i < a.len() && a[i] == selector;
            assert(all[i] == selector);
        }
        if b.contains(selector) {
            let i = choose|i: int| 0 <= i < b.len() && b[i] == selector;
            assert(all[a.len() + i] == selector);
        }
        if all.contains(selector) {
            let i = choose|i: int| 0 <= i < all.len() && all[i] == selector;
            if i < a.len() {
                assert(a[i] == selector);
            } else {
                assert(b[i - a.len()] == selector);
            }
        }
    }
}

/// On a page that generic rules are to be applied to, every generic selector that
/// is not an exception of the page is hidden on it or found by a name that it
/// needs, once that is among the classes or the ids, and the exceptions are those
/// of the page.
pub proof fn no_generic_selector_is_missed(
    cosmetics: CosmeticModel,
    host: Seq<char>,
    classes: Seq<Seq<char>>,
    ids: Seq<Seq<char>>,
    selector: Seq<char>,
)
    requires
        cosmetics.generic.contains(selector),
        selector_key(selector, '.') matches Some(class) ==> classes.contains(class),
        selector_key(selector, '#') matches Some(id) ==> ids.contains(id),
    ensures
        ({
            let page = cosmetics.page(host, false);
            let found = cosmetics.keyed('.', classes, page.exceptions) + cosmetics.keyed(
                '#',
                ids,
                page.exceptions,
            );
            if page.exceptions.contains(selector) {
                !page.hide_selectors.contains(selector) && !found.contains(selector)
            } else {
                page.hide_selectors.contains(selector) || found.contains(selector)
            }
        }),
{
    let page = cosmetics.page(host, false);
    let a = cosmetics.keyed('.', classes, page.exceptions);
    let b = cosmetics.keyed('#', ids, page.exceptions);
    lemma_page_hides(cosmetics, host, false, selector);
    lemma_exceptions(cosmetics, host, selector);
    keyed_selectors(cosmetics, '.', classes, page.exceptions, selector);
    keyed_selectors(cosmetics, '#', ids, page.exceptions, selector);
    if page.exceptions.contains(selector) && page.hide_selectors.contains(selector) {
        hidden_selectors_are_not_excepted(cosmetics, host, false, selector);
    }
    if a.contains(selector) {
        let i = choose|i: int| 0 <= i < a.len() && a[i] == selector;
        assert((a + b)[i] == selector);
    }
    if b.contains(selector) {
        let i = choose|i: int| 0 <= i < b.len() && b[i] == selector;
        assert((a + b)[a.len() + i] == selector);
    }
    if (a + b).contains(selector) {
        let i = choose|i: int| 0 <= i < (a + b).len() && (a + b)[i] == selector;
        if i < a.len() {
            assert(a[i] == selector);
        } else {
            assert(b[i - a.len()] == selector);
        }
    }
}

/// An engine in the compressed format is neither the engine in the raw format nor a
/// compression of that.
pub proof fn formats_differ(data: DataModel, bytes: Seq<u8>)
    requires
        gzip_mark().is_prefix_of(bytes),
        gzip_data(bytes) == Some(grouped_bytes(data)),
    ensures
        bytes != raw_bytes(data),
        gzip_data(bytes) != Some(raw_bytes(data)),
{
    let list = grouped_data_items(data);
    assert(list[0] == Item::Array(12));
    assert(written(list[0])[0] == 0x9c);
    assert(grouped_bytes(data)[0] == 0x9c);
    assert(raw_bytes(data)[0] == 0xd1);
    assert(bytes.subrange(0, 2)[0] == gzip_mark()[0]);
}

/// A rule without its tag.
pub open spec fn untagged(rule: NetworkRule) -> NetworkRule {
    NetworkRule { tag: None, ..rule }
}

proof fn lemma_pushed(rules: Seq<NetworkRule>, rule: NetworkRule, slot: Slot)
    requires
        kept(bad_rules(rules), rule),
    ensures
        slot_rules(rules.push(rule), slot) == if slot_of(rule) == slot {
            slot_rules(rules, slot).push(rule)
        } else {
            slot_rules(rules, slot)
        },
        redirect_rules(rules.push(rule)) == if rule.redirect is Some {
            redirect_rules(rules).push(rule)
        } else {
            redirect_rules(rules)
        },
{
    let bad = bad_rules(rules);
    rules.lemma_filter_push(rule, |r: NetworkRule| r.mask.bad_filter);
    assert(bad_rules(rules.push(rule)) == bad);
    rules.lemma_filter_push(rule, in_slot(bad, slot));
    rules.lemma_filter_push(rule, redirecting(bad));
}

proof fn lemma_any_match_pushed(
    list: Seq<NetworkRule>,
    rule: NetworkRule,
    request: RequestModel,
    tags: Set<Seq<char>>,
)
    ensures
        any_match(list.push(rule), request, tags) == (any_match(list, request, tags) || (
        rule.in_force(tags) && rule.matches(request))),
{
    let after = list.push(rule);
    assert(after[list.len() as int] == rule);
    if any_match(list, request, tags) {
        let i = choose|i: int|
            0 <= i < list.len() && (#[trigger] list[i]).in_force(tags) && list[i].matches(request);
        assert(after[i] == list[i]);
    }
    if any_match(after, request, tags) {
        let i = choose|i: int|
            0 <= i < after.len() && (#[trigger] after[i]).in_force(tags) && after[i].matches(
                request,
            );
        if i < list.len() {
            assert(list[i] == after[i]);
        }
    }
}

/// What one more rule adds to a slot, whether or not similar rules are joined.
proof fn lemma_slot_pushed(
    rules: Seq<NetworkRule>,
    rule: NetworkRule,
    slot: Slot,
    optimize: bool,
    request: RequestModel,
    tags: Set<Seq<char>>,
)
    requires
        kept(bad_rules(rules), rule),
    ensures
        any_match(stored(slot_rules(rules.push(rule), slot), optimize), request, tags) == (any_match(
            stored(slot_rules(rules, slot), optimize),
            request,
            tags,
        ) || (slot_of(rule) == slot && rule.in_force(tags) && rule.matches(request))),
{
    let list = slot_rules(rules, slot);
    lemma_pushed(rules, rule, slot);
    lemma_any_match_pushed(list, rule, request, tags);
    lemma_fuse_match(list, request, tags);
    lemma_fuse_match(list.push(rule), request, tags);
}

/// Verdicts agree where the same sorts of rules apply and the redirections are equal.
proof fn lemma_agree(
    a: BlockerModel,
    b: BlockerModel,
    request: RequestModel,
    matched_rule: bool,
    force: bool,
)
    requires
        a.tags == b.tags,
        any_match(a.importants, request, a.tags) == any_match(b.importants, request, b.tags),
        any_match(a.exceptions, request, a.tags) == any_match(b.exceptions, request, b.tags),
        (any_match(a.tagged, request, a.tags) || any_match(a.filters, request, a.tags)) == (
        any_match(b.tagged, request, b.tags) || any_match(b.filters, request, b.tags)),
        any_match(a.generic_hide, request, a.tags) == any_match(b.generic_hide, request, b.tags),
        a.redirection(request) == b.redirection(request),
    ensures
        agree(a.verdict(request, matched_rule, force), b.verdict(request, matched_rule, force)),
        a.hides_no_generics(request) == b.hides_no_generics(request),
{
    lemma_first_match(a.importants, request, a.tags);
    lemma_first_match(a.exceptions, request, a.tags);
    lemma_first_match(a.tagged, request, a.tags);
    lemma_first_match(a.filters, request, a.tags);
    lemma_first_match(a.generic_hide, request, a.tags);
    lemma_first_match(b.importants, request, b.tags);
    lemma_first_match(b.exceptions, request, b.tags);
    lemma_first_match(b.tagged, request, b.tags);
    lemma_first_match(b.filters, request, b.tags);
    lemma_first_match(b.generic_hide, request, b.tags);
}

/// Two rules are the same, but for a tag of the first and for their lines.
pub open spec fn same_but_tag(rule: NetworkRule, plain: NetworkRule) -> bool {
    without_line(untagged(rule)) == without_line(plain)
}

/// A rule that differs from another in its tag alone applies to the same requests.
proof fn lemma_match_untagged(rule: NetworkRule, plain: NetworkRule, request: RequestModel)
    requires
        same_but_tag(rule, plain),
    ensures
        plain.matches(request) == rule.matches(request),
        plain.tag is None,
        plain.mask == rule.mask,
        plain.csp == rule.csp,
        plain.redirect == rule.redirect,
{
    let stripped = without_line(plain);
    assert(stripped.mask == rule.mask);
    assert(stripped.tag is None && stripped.csp == rule.csp && stripped.redirect == rule.redirect);
    assert(stripped.patterns == rule.patterns && stripped.domains == rule.domains);
    assert(stripped.not_domains == rule.not_domains);
    assert(plain.patterns == rule.patterns);
    assert(plain.mask == rule.mask);
    assert(plain.domains == rule.domains);
    assert(plain.not_domains == rule.not_domains);
    assert(plain.admits(request) == rule.admits(request));
}

/// The rules that apply, of a list with a tagged rule at its end.
proof fn lemma_all_matches_tagged(
    list: Seq<NetworkRule>,
    rule: NetworkRule,
    plain: NetworkRule,
    request: RequestModel,
    tags: Set<Seq<char>>,
)
    requires
        rule.tag is Some,
        same_but_tag(rule, plain),
    ensures
        tags.contains(rule.tag->0) ==> alike(
            all_matches(list.push(rule), request, tags),
            all_matches(list.push(plain), request, tags),
        ),
        !tags.contains(rule.tag->0) ==> all_matches(list.push(rule), request, tags) == all_matches(
            list,
            request,
            tags,
        ),
{
    let p = matching(request, tags);
    list.lemma_filter_push(rule, p);
    list.lemma_filter_push(plain, p);
    lemma_match_untagged(rule, plain, request);
}

/// A tagged rule acts as the rule without the tag while its tag is enabled, and as
/// if it were not there while it is not. This is so of every sort of rule, unless
/// another rule takes one of the two back.
pub proof fn tags_turn_rules_on_and_off(
    rules: Seq<NetworkRule>,
    rule: NetworkRule,
    plain: NetworkRule,
    tag: Seq<char>,
    optimize: bool,
    tags: Set<Seq<char>>,
    resources: Map<Seq<char>, RedirectModel>,
    request: RequestModel,
    matched_rule: bool,
    force: bool,
)
    requires
        rule.tag == Some(tag),
        same_but_tag(rule, plain),
        kept(bad_rules(rules), rule),
        kept(bad_rules(rules), plain),
    ensures
        ({
            let tagged = equipped(rules.push(rule), optimize, tags, resources);
            let other = if tags.contains(tag) {
                equipped(rules.push(plain), optimize, tags, resources)
            } else {
                equipped(rules, optimize, tags, resources)
            };
            &&& agree(
                tagged.verdict(request, matched_rule, force),
                other.verdict(request, matched_rule, force),
            )
            &&& tagged.csp_directives(request) == other.csp_directives(request)
            &&& tagged.hides_no_generics(request) == other.hides_no_generics(request)
        }),
{
    let tagged = equipped(rules.push(rule), optimize, tags, resources);
    let on = equipped(rules.push(plain), optimize, tags, resources);
    let off = equipped(rules, optimize, tags, resources);
    let other = if tags.contains(tag) {
        on
    } else {
        off
    };
    lemma_match_untagged(rule, plain, request);
    lemma_slot_pushed(rules, rule, Slot::Important, optimize, request, tags);
    lemma_slot_pushed(rules, rule, Slot::Exception, optimize, request, tags);
    lemma_slot_pushed(rules, rule, Slot::Tagged, optimize, request, tags);
    lemma_slot_pushed(rules, rule, Slot::Plain, optimize, request, tags);
    lemma_slot_pushed(rules, rule, Slot::GenericHide, optimize, request, tags);
    lemma_slot_pushed(rules, plain, Slot::Important, optimize, request, tags);
    lemma_slot_pushed(rules, plain, Slot::Exception, optimize, request, tags);
    lemma_slot_pushed(rules, plain, Slot::Tagged, optimize, request, tags);
    lemma_slot_pushed(rules, plain, Slot::Plain, optimize, request, tags);
    lemma_slot_pushed(rules, plain, Slot::GenericHide, optimize, request, tags);
    lemma_pushed(rules, rule, Slot::Csp);
    lemma_pushed(rules, plain, Slot::Csp);
    lemma_all_matches_tagged(off.csp, rule, plain, request, tags);
    lemma_all_matches_tagged(off.redirects, rule, plain, request, tags);
    let policing = all_matches(tagged.csp, request, tags);
    let redirecting = all_matches(tagged.redirects, request, tags);
    assert(alike(policing, all_matches(other.csp, request, tags)));
    assert(alike(redirecting, all_matches(other.redirects, request, tags)));
    lemma_alike(policing, all_matches(other.csp, request, tags));
    lemma_alike(redirecting, all_matches(other.redirects, request, tags));
    assert(tagged.redirection(request) == other.redirection(request));
    lemma_agree(tagged, other, request, matched_rule, force);
}

} // verus!

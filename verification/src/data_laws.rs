//! What holds of the formats that an engine is saved in: how what others wrote is read.

use vstd::prelude::*;
use vstd::utf8::{decode_utf8, valid_utf8};

use crate::data_format::{
    group_taker, grouped_in, grouped_taker, gzip_mark, raw_bytes, raw_items, raw_lists, raw_mark,
    rules_writer, saved_in, take_answers, take_grouped, take_grouped_data, take_later, ungrouped,
    DataModel,
};
use crate::filters::cosmetic::CosmeticAction;
use crate::filters::network::NetworkRule;
use crate::layout::{
    behind, cosmetics_items, lemma_cosmetics, lemma_resources, lemma_rules, lemma_scripts,
    lemma_texts, many_items, mask_of, resources_items, rules_items, scripts_items, take_cosmetic,
    take_many, take_mask, take_names, take_patterns, take_rule, text_items, texts_items,
};
use crate::msgpack::{
    all_fit, all_written, first_item as first_token, lemma_all_written, number_of, Item,
};
use crate::outside::gzip_data;
use crate::resources::RedirectModel;

verus! {

/// The tokens of groups of rules, each under its key.
pub open spec fn keyed_groups(groups: Seq<(u64, Seq<NetworkRule>)>) -> Seq<Item>
    decreases groups.len(),
{
    if groups.len() == 0 {
        Seq::empty()
    } else {
        keyed_groups(groups.drop_last()) + seq![Item::UInt(groups.last().0)] + rules_items(
            groups.last().1,
        )
    }
}

/// The tokens of a map of groups of rules.
pub open spec fn grouping(groups: Seq<(u64, Seq<NetworkRule>)>) -> Seq<Item> {
    seq![Item::Array(1), Item::Pairs(groups.len())] + keyed_groups(groups)
}

/// The rules of groups, of the first and then of the others.
pub open spec fn in_groups(groups: Seq<(u64, Seq<NetworkRule>)>) -> Seq<NetworkRule> {
    groups.map_values(|g: (u64, Seq<NetworkRule>)| g.1).flatten()
}

proof fn lemma_flatten(groups: Seq<Seq<NetworkRule>>)
    ensures
        ungrouped(groups) == groups.flatten(),
    decreases groups.len(),
{
    groups.lemma_flatten_and_flatten_alt_are_equivalent();
    if groups.len() > 0 {
        let front = groups.drop_last();
        lemma_flatten(front);
        front.lemma_flatten_and_flatten_alt_are_equivalent();
    }
}

proof fn lemma_keyed_groups(groups: Seq<(u64, Seq<NetworkRule>)>, after: Seq<Item>)
    ensures
        take_many(keyed_groups(groups) + after, groups.len(), group_taker()) == Some(
            (groups.map_values(|g: (u64, Seq<NetworkRule>)| g.1), after),
        ),
    decreases groups.len(),
{
    let f = group_taker();
    let lists = groups.map_values(|g: (u64, Seq<NetworkRule>)| g.1);
    let all = keyed_groups(groups) + after;
    if groups.len() == 0 {
        assert(all =~= after);
        assert(lists =~= Seq::empty());
    } else {
        let front = groups.drop_last();
        let (key, list) = groups.last();
        let next = seq![Item::UInt(key)] + rules_items(list) + after;
        lemma_keyed_groups(front, next);
        assert(all =~= keyed_groups(front) + next);
        assert(next.skip(1) =~= rules_items(list) + after);
        assert(next[0] == Item::UInt(key));
        lemma_rules(list, after);
        assert(f(next) == Some((list, after)));
        let fronts = front.map_values(|g: (u64, Seq<NetworkRule>)| g.1);
        assert(lists =~= fronts.push(list));
    }
}

/// Rules in groups are read whole: those of every group, in turn, however many groups
/// there are and whatever their keys.
pub proof fn all_groups_are_read(groups: Seq<(u64, Seq<NetworkRule>)>, after: Seq<Item>)
    ensures
        take_grouped(grouping(groups) + after) == Some((in_groups(groups), after)),
{
    let all = grouping(groups) + after;
    let lists = groups.map_values(|g: (u64, Seq<NetworkRule>)| g.1);
    assert(all[0] == Item::Array(1));
    assert(all.skip(1)[0] == Item::Pairs(groups.len()));
    assert(all.skip(1).skip(1) =~= keyed_groups(groups) + after);
    lemma_keyed_groups(groups, after);
    lemma_flatten(lists);
}

/// A rule is read from groups if and only if it stands in one of them.
pub proof fn rules_are_read_from_every_group(
    groups: Seq<(u64, Seq<NetworkRule>)>,
    after: Seq<Item>,
    rule: NetworkRule,
)
    ensures
        take_grouped(grouping(groups) + after) matches Some((list, next)) && {
            &&& next == after
            &&& list.contains(rule) <==> exists|i: int|
                0 <= i < groups.len() && (#[trigger] groups[i]).1.contains(rule)
        },
{
    all_groups_are_read(groups, after);
    lemma_in_groups(groups, rule);
}

proof fn lemma_in_groups(groups: Seq<(u64, Seq<NetworkRule>)>, rule: NetworkRule)
    ensures
        in_groups(groups).contains(rule) <==> exists|i: int|
            0 <= i < groups.len() && (#[trigger] groups[i]).1.contains(rule),
    decreases groups.len(),
{
    let lists = groups.map_values(|g: (u64, Seq<NetworkRule>)| g.1);
    lemma_flatten(lists);
    if groups.len() > 0 {
        let front = groups.drop_last();
        let last = groups.last().1;
        let fronts = front.map_values(|g: (u64, Seq<NetworkRule>)| g.1);
        lemma_in_groups(front, rule);
        lemma_flatten(fronts);
        assert(lists.drop_last() =~= fronts);
        assert(lists.last() == last);
        let a = ungrouped(fronts);
        let all = a + last;
        assert(ungrouped(lists) == all);
        assert(groups[groups.len() - 1].1 == last);
        if a.contains(rule) {
            let k = choose|k: int| 0 <= k < a.len() && a[k] == rule;
            assert(all[k] == rule);
            let i = choose|i: int|
                0 <= i < front.len() && (#[trigger] front[i]).1.contains(rule);
            assert(groups[i].1.contains(rule));
        }
        if last.contains(rule) {
            let k = choose|k: int| 0 <= k < last.len() && last[k] == rule;
            assert(all[a.len() + k] == rule);
        }
        if all.contains(rule) {
            let k = choose|k: int| 0 <= k < all.len() && all[k] == rule;
            if k < a.len() {
                assert(a[k] == rule);
            } else {
                assert(last[k - a.len()] == rule);
            }
        }
        if exists|i: int| 0 <= i < groups.len() && (#[trigger] groups[i]).1.contains(rule) {
            let i = choose|i: int|
                0 <= i < groups.len() && (#[trigger] groups[i]).1.contains(rule);
            if i < front.len() {
                assert(front[i].1.contains(rule));
            }
        }
    } else {
        assert(lists =~= Seq::empty());
        assert(ungrouped(lists) =~= Seq::empty());
    }
}

/// The tokens of the resources, where data holds them.
pub open spec fn answer_part(
    present: bool,
    resources: Seq<(Seq<char>, RedirectModel)>,
) -> Seq<Item> {
    if present {
        seq![Item::Array(1)] + resources_items(resources)
    } else {
        Seq::empty()
    }
}

/// The tokens of what data holds last, where it holds it.
pub open spec fn later_part(present: bool, data: DataModel) -> Seq<Item> {
    if present {
        seq![Item::Array(4)] + rules_items(data.generic_hide) + texts_items(data.generic)
            + cosmetics_items(data.specific) + scripts_items(data.scriptlets)
    } else {
        Seq::empty()
    }
}

/// The token that data in the compressed format starts with.
pub open spec fn first_item(with_answers: bool) -> Item {
    Item::Array(
        if with_answers {
            12
        } else {
            11
        },
    )
}

/// What follows the lists in groups.
pub open spec fn end_part(
    data: DataModel,
    switches: (bool, bool, bool),
    with_answers: bool,
    with_later: bool,
) -> Seq<Item> {
    rules_items(data.tagged) + (seq![
        Item::Bool(switches.0),
        Item::Bool(data.enable_optimizations),
        Item::Bool(switches.1),
        Item::Bool(switches.2),
    ] + (answer_part(with_answers, data.resources) + later_part(with_later, data)))
}

/// The tokens of data in the compressed format, with rules in whatever groups.
pub open spec fn written_in_groups(
    csp: Seq<(u64, Seq<NetworkRule>)>,
    exceptions: Seq<(u64, Seq<NetworkRule>)>,
    importants: Seq<(u64, Seq<NetworkRule>)>,
    redirects: Seq<(u64, Seq<NetworkRule>)>,
    repeated: Seq<(u64, Seq<NetworkRule>)>,
    filters: Seq<(u64, Seq<NetworkRule>)>,
    data: DataModel,
    switches: (bool, bool, bool),
    with_answers: bool,
    with_later: bool,
) -> Seq<Item> {
    seq![first_item(with_answers)] + (grouping(csp) + grouping(exceptions) + grouping(importants)
        + grouping(redirects) + grouping(repeated) + grouping(filters)) + end_part(
        data,
        switches,
        with_answers,
        with_later,
    )
}

/// Data with the rules of groups, and with what was missing empty.
pub open spec fn with_groups(
    csp: Seq<(u64, Seq<NetworkRule>)>,
    exceptions: Seq<(u64, Seq<NetworkRule>)>,
    importants: Seq<(u64, Seq<NetworkRule>)>,
    redirects: Seq<(u64, Seq<NetworkRule>)>,
    filters: Seq<(u64, Seq<NetworkRule>)>,
    data: DataModel,
    with_answers: bool,
    with_later: bool,
) -> DataModel {
    DataModel {
        csp: in_groups(csp),
        exceptions: in_groups(exceptions),
        importants: in_groups(importants),
        redirects: in_groups(redirects),
        tagged: data.tagged,
        filters: in_groups(filters),
        generic_hide: if with_later {
            data.generic_hide
        } else {
            Seq::empty()
        },
        enable_optimizations: data.enable_optimizations,
        resources: if with_answers {
            data.resources
        } else {
            Seq::empty()
        },
        generic: if with_later {
            data.generic
        } else {
            Seq::empty()
        },
        specific: if with_later {
            data.specific
        } else {
            Seq::empty()
        },
        scriptlets: if with_later {
            data.scriptlets
        } else {
            Seq::empty()
        },
    }
}

proof fn lemma_six(
    a: Seq<(u64, Seq<NetworkRule>)>,
    b: Seq<(u64, Seq<NetworkRule>)>,
    c: Seq<(u64, Seq<NetworkRule>)>,
    d: Seq<(u64, Seq<NetworkRule>)>,
    e: Seq<(u64, Seq<NetworkRule>)>,
    g: Seq<(u64, Seq<NetworkRule>)>,
    after: Seq<Item>,
)
    ensures
        take_many(
            grouping(a) + grouping(b) + grouping(c) + grouping(d) + grouping(e) + grouping(g)
                + after,
            6,
            grouped_taker(),
        ) == Some(
            (
                seq![
                    in_groups(a),
                    in_groups(b),
                    in_groups(c),
                    in_groups(d),
                    in_groups(e),
                    in_groups(g),
                ],
                after,
            ),
        ),
{
    let f = grouped_taker();
    let l5 = grouping(g) + after;
    let l4 = grouping(e) + l5;
    let l3 = grouping(d) + l4;
    let l2 = grouping(c) + l3;
    let l1 = grouping(b) + l2;
    let l0 = grouping(a) + l1;
    assert(l0 =~= grouping(a) + grouping(b) + grouping(c) + grouping(d) + grouping(e) + grouping(g)
        + after);
    all_groups_are_read(a, l1);
    all_groups_are_read(b, l2);
    all_groups_are_read(c, l3);
    all_groups_are_read(d, l4);
    all_groups_are_read(e, l5);
    all_groups_are_read(g, after);
    let none = Seq::<Seq<NetworkRule>>::empty();
    let s1 = none.push(in_groups(a));
    let s2 = s1.push(in_groups(b));
    let s3 = s2.push(in_groups(c));
    let s4 = s3.push(in_groups(d));
    let s5 = s4.push(in_groups(e));
    let s6 = s5.push(in_groups(g));
    assert(take_many(l0, 0, f) == Some((none, l0)));
    assert(f(l0) == Some((in_groups(a), l1)));
    assert(take_many(l0, 1, f) == Some((s1, l1)));
    assert(f(l1) == Some((in_groups(b), l2)));
    assert(take_many(l0, 2, f) == Some((s2, l2)));
    assert(f(l2) == Some((in_groups(c), l3)));
    assert(take_many(l0, 3, f) == Some((s3, l3)));
    assert(f(l3) == Some((in_groups(d), l4)));
    assert(take_many(l0, 4, f) == Some((s4, l4)));
    assert(f(l4) == Some((in_groups(e), l5)));
    assert(take_many(l0, 5, f) == Some((s5, l5)));
    assert(f(l5) == Some((in_groups(g), after)));
    assert(take_many(l0, 6, f) == Some((s6, after)));
}

proof fn lemma_later_part(before: DataModel, present: bool, data: DataModel)
    requires
        before.generic_hide.len() == 0,
        before.generic.len() == 0,
        before.specific.len() == 0,
        before.scriptlets.len() == 0,
    ensures
        take_later(before, later_part(present, data)) == Some(
            DataModel {
                generic_hide: if present {
                    data.generic_hide
                } else {
                    Seq::empty()
                },
                generic: if present {
                    data.generic
                } else {
                    Seq::empty()
                },
                specific: if present {
                    data.specific
                } else {
                    Seq::empty()
                },
                scriptlets: if present {
                    data.scriptlets
                } else {
                    Seq::empty()
                },
                ..before
            },
        ),
{
    let list = later_part(present, data);
    if present {
        let end = Seq::<Item>::empty();
        let l3 = scripts_items(data.scriptlets) + end;
        let l2 = cosmetics_items(data.specific) + l3;
        let l1 = texts_items(data.generic) + l2;
        assert(list.skip(1) =~= rules_items(data.generic_hide) + l1);
        assert(list[0] == Item::Array(4));
        lemma_rules(data.generic_hide, l1);
        lemma_texts(data.generic, l2);
        lemma_cosmetics(data.specific, l3);
        lemma_scripts(data.scriptlets, end);
    } else {
        assert(before.generic_hide =~= Seq::empty());
        assert(before.generic =~= Seq::empty());
        assert(before.specific =~= Seq::empty());
        assert(before.scriptlets =~= Seq::empty());
    }
}

/// Data in the compressed format is read whole, in whatever groups its rules stand: each
/// list gets the rules of all its groups. Where the resources or what came later are
/// missing, there are none.
pub proof fn grouped_data_is_read(
    csp: Seq<(u64, Seq<NetworkRule>)>,
    exceptions: Seq<(u64, Seq<NetworkRule>)>,
    importants: Seq<(u64, Seq<NetworkRule>)>,
    redirects: Seq<(u64, Seq<NetworkRule>)>,
    repeated: Seq<(u64, Seq<NetworkRule>)>,
    filters: Seq<(u64, Seq<NetworkRule>)>,
    data: DataModel,
    switches: (bool, bool, bool),
    with_answers: bool,
    with_later: bool,
)
    requires
        all_fit(
            written_in_groups(
                csp,
                exceptions,
                importants,
                redirects,
                repeated,
                filters,
                data,
                switches,
                with_answers,
                with_later,
            ),
        ),
    ensures
        grouped_in(
            all_written(
                written_in_groups(
                    csp,
                    exceptions,
                    importants,
                    redirects,
                    repeated,
                    filters,
                    data,
                    switches,
                    with_answers,
                    with_later,
                ),
            ),
        ) == Some(
            with_groups(
                csp,
                exceptions,
                importants,
                redirects,
                filters,
                data,
                with_answers,
                with_later,
            ),
        ),
{
    let all = written_in_groups(
        csp,
        exceptions,
        importants,
        redirects,
        repeated,
        filters,
        data,
        switches,
        with_answers,
        with_later,
    );
    let six = grouping(csp) + grouping(exceptions) + grouping(importants) + grouping(redirects)
        + grouping(repeated) + grouping(filters);
    let lists = seq![
        in_groups(csp),
        in_groups(exceptions),
        in_groups(importants),
        in_groups(redirects),
        in_groups(repeated),
        in_groups(filters),
    ];
    lemma_taken(all);
    lemma_six(
        csp,
        exceptions,
        importants,
        redirects,
        repeated,
        filters,
        end_part(data, switches, with_answers, with_later),
    );
    lemma_behind_lists(six, lists, data, switches, with_answers, with_later);
}

/// What tokens of the compressed format hold.
#[verifier::opaque]
spec fn taken(list: Seq<Item>) -> Option<DataModel> {
    take_grouped_data(list)
}

proof fn lemma_taken(list: Seq<Item>)
    requires
        all_fit(list),
    ensures
        grouped_in(all_written(list)) == taken(list),
{
    lemma_all_written(list);
    reveal(taken);
}

/// Data with lists, and with what was missing empty.
spec fn with_lists(
    lists: Seq<Seq<NetworkRule>>,
    data: DataModel,
    with_answers: bool,
    with_later: bool,
) -> DataModel {
    DataModel {
        csp: lists[0],
        exceptions: lists[1],
        importants: lists[2],
        redirects: lists[3],
        tagged: data.tagged,
        filters: lists[5],
        generic_hide: if with_later {
            data.generic_hide
        } else {
            Seq::empty()
        },
        enable_optimizations: data.enable_optimizations,
        resources: if with_answers {
            data.resources
        } else {
            Seq::empty()
        },
        generic: if with_later {
            data.generic
        } else {
            Seq::empty()
        },
        specific: if with_later {
            data.specific
        } else {
            Seq::empty()
        },
        scriptlets: if with_later {
            data.scriptlets
        } else {
            Seq::empty()
        },
    }
}

proof fn lemma_behind_lists(
    six: Seq<Item>,
    lists: Seq<Seq<NetworkRule>>,
    data: DataModel,
    switches: (bool, bool, bool),
    with_answers: bool,
    with_later: bool,
)
    requires
        take_many(
            six + end_part(data, switches, with_answers, with_later),
            6,
            grouped_taker(),
        ) == Some((lists, end_part(data, switches, with_answers, with_later))),
    ensures
        taken(
            seq![first_item(with_answers)] + six + end_part(
                data,
                switches,
                with_answers,
                with_later,
            ),
        ) == Some(with_lists(lists, data, with_answers, with_later)),
{
    reveal(taken);
    let l1 = end_part(data, switches, with_answers, with_later);
    let all = seq![first_item(with_answers)] + six + l1;
    let l4 = later_part(with_later, data);
    let l3 = answer_part(with_answers, data.resources) + l4;
    let l2 = seq![
        Item::Bool(switches.0),
        Item::Bool(data.enable_optimizations),
        Item::Bool(switches.1),
        Item::Bool(switches.2),
    ] + l3;
    assert(all.skip(1) =~= six + l1);
    assert(all[0] == first_item(with_answers));
    lemma_rules(data.tagged, l2);
    assert(l2.skip(4) =~= l3);
    lemma_answer_part(with_answers, data.resources, l4);
    let before = DataModel {
        csp: lists[0],
        exceptions: lists[1],
        importants: lists[2],
        redirects: lists[3],
        tagged: data.tagged,
        filters: lists[5],
        generic_hide: Seq::empty(),
        enable_optimizations: data.enable_optimizations,
        resources: if with_answers {
            data.resources
        } else {
            Seq::empty()
        },
        generic: Seq::empty(),
        specific: Seq::empty(),
        scriptlets: Seq::empty(),
    };
    lemma_later_part(before, with_later, data);
}

proof fn lemma_answer_part(
    present: bool,
    resources: Seq<(Seq<char>, RedirectModel)>,
    after: Seq<Item>,
)
    ensures
        take_answers(answer_part(present, resources) + after, present) == Some(
            (
                if present {
                    resources
                } else {
                    Seq::empty()
                },
                after,
            ),
        ),
{
    let list = answer_part(present, resources) + after;
    if present {
        assert(list.skip(1) =~= resources_items(resources) + after);
        assert(list[0] == Item::Array(1));
        lemma_resources(resources, after);
    } else {
        assert(list =~= after);
    }
}

/// The tokens of a list of texts: how many there are, and each of them.
pub open spec fn listed_texts(list: Seq<Seq<char>>) -> Seq<Item> {
    seq![Item::Array(list.len())] + list.map_values(|s: Seq<char>| Item::Text(s))
}

proof fn lemma_listed_texts(list: Seq<Seq<char>>)
    ensures
        texts_items(list) == listed_texts(list),
{
    lemma_many_texts(list);
}

proof fn lemma_many_texts(list: Seq<Seq<char>>)
    ensures
        many_items(list, text_items()) == list.map_values(|s: Seq<char>| Item::Text(s)),
    decreases list.len(),
{
    let f = |s: Seq<char>| Item::Text(s);
    if list.len() > 0 {
        let front = list.drop_last();
        lemma_many_texts(front);
        let g = text_items();
        assert(g(list.last()) =~= seq![Item::Text(list.last())]);
        assert(list.map_values(f) =~= front.map_values(f) + seq![Item::Text(list.last())]);
    } else {
        assert(list.map_values(f) =~= Seq::empty());
    }
}

/// The tokens of a list of names, which may be missing.
pub open spec fn names_part(list: Option<Seq<Seq<char>>>) -> Seq<Item> {
    match list {
        Some(list) => listed_texts(list),
        None => seq![Item::Nil],
    }
}

/// The names of a list that may be missing.
pub open spec fn names_in(list: Option<Seq<Seq<char>>>) -> Seq<Seq<char>> {
    match list {
        Some(list) => list,
        None => Seq::empty(),
    }
}

/// What the patterns of a rule are written as: nothing for none, one, or a list.
pub enum PatternForm {
    Empty,
    One(Seq<char>),
    List(Seq<Seq<char>>),
}

/// The tokens of the patterns of a rule.
pub open spec fn patterns_part(form: PatternForm) -> Seq<Item> {
    match form {
        PatternForm::Empty => seq![Item::Array(2), Item::UInt(0), Item::Array(0)],
        PatternForm::One(p) => seq![Item::Array(2), Item::UInt(1), Item::Array(1), Item::Text(p)],
        PatternForm::List(list) => seq![Item::Array(2), Item::UInt(2), Item::Array(1)]
            + listed_texts(list),
    }
}

/// The patterns of a rule.
pub open spec fn patterns_in(form: PatternForm) -> Seq<Seq<char>> {
    match form {
        PatternForm::Empty => seq![Seq::<char>::empty()],
        PatternForm::One(p) => seq![p],
        PatternForm::List(list) => list,
    }
}

/// The token of a text that may be missing.
pub open spec fn maybe(s: Option<Seq<char>>) -> Item {
    match s {
        Some(s) => Item::Text(s),
        None => Item::Nil,
    }
}

/// A number that is passed over, or nothing.
pub open spec fn is_skipped(item: Item) -> bool {
    item is Nil || item is UInt
}

/// The tokens of a rule.
pub open spec fn rule_part(
    bits: u32,
    form: PatternForm,
    domains: Option<Seq<Seq<char>>>,
    not_domains: Option<Seq<Seq<char>>>,
    hostname: Option<Seq<char>>,
    rule: NetworkRule,
    skipped: (Item, Item, Item, Item, Item),
) -> Seq<Item> {
    seq![Item::Array(14), Item::Array(1), Item::UInt(bits as u64)] + (patterns_part(form) + (
    names_part(domains) + (names_part(not_domains) + seq![
        maybe(rule.redirect),
        maybe(hostname),
        maybe(rule.csp),
        skipped.0,
        maybe(rule.tag),
        maybe(rule.raw_line),
        skipped.1,
        skipped.2,
        skipped.3,
        skipped.4,
    ])))
}

/// A rule is read from its tokens, in whatever form its patterns are written: with a host
/// name each of them stands behind it. Domains that are missing are none.
pub proof fn rules_are_read(
    bits: u32,
    form: PatternForm,
    domains: Option<Seq<Seq<char>>>,
    not_domains: Option<Seq<Seq<char>>>,
    hostname: Option<Seq<char>>,
    rule: NetworkRule,
    skipped: (Item, Item, Item, Item, Item),
    after: Seq<Item>,
)
    requires
        is_skipped(skipped.0) && is_skipped(skipped.1) && is_skipped(skipped.2) && is_skipped(
            skipped.3,
        ) && is_skipped(skipped.4),
    ensures
        take_rule(
            rule_part(bits, form, domains, not_domains, hostname, rule, skipped) + after,
        ) matches Some((read, next)) && {
            &&& next == after
            &&& read.mask == mask_of(bits)
            &&& read.patterns.len() == patterns_in(form).len()
            &&& forall|i: int|
                0 <= i < read.patterns.len() ==> #[trigger] read.patterns[i] == (match hostname {
                    Some(host) => host,
                    None => Seq::empty(),
                }) + patterns_in(form)[i]
            &&& read.domains == names_in(domains)
            &&& read.not_domains == names_in(not_domains)
            &&& read.redirect == rule.redirect
            &&& read.csp == rule.csp
            &&& read.tag == rule.tag
            &&& read.raw_line == rule.raw_line
        },
{
    let end = seq![
        maybe(rule.redirect),
        maybe(hostname),
        maybe(rule.csp),
        skipped.0,
        maybe(rule.tag),
        maybe(rule.raw_line),
        skipped.1,
        skipped.2,
        skipped.3,
        skipped.4,
    ];
    let l4 = end + after;
    let l3 = names_part(not_domains) + l4;
    let l2 = names_part(domains) + l3;
    let l1 = patterns_part(form) + l2;
    let l0 = rule_part(bits, form, domains, not_domains, hostname, rule, skipped) + after;
    assert(l0 =~= seq![Item::Array(14), Item::Array(1), Item::UInt(bits as u64)] + l1);
    assert(l0.skip(3) =~= l1);
    assert(take_mask(l0) == Some((mask_of(bits), l1)));
    lemma_patterns_part(form, l2);
    lemma_names_part(domains, l3);
    lemma_names_part(not_domains, l4);
    assert(l4.skip(10) =~= after);
    assert(l4[0] == end[0] && l4[1] == end[1] && l4[2] == end[2] && l4[3] == end[3] && l4[4]
        == end[4] && l4[5] == end[5] && l4[6] == end[6] && l4[7] == end[7] && l4[8] == end[8]
        && l4[9] == end[9]);
    let read = (take_rule(l0)->0).0;
    assert(read.patterns == behind(hostname, patterns_in(form)));
    assert forall|i: int| 0 <= i < read.patterns.len() implies #[trigger] read.patterns[i] == (
    match hostname {
        Some(host) => host,
        None => Seq::empty(),
    }) + patterns_in(form)[i] by {
        if hostname is None {
            assert(Seq::<char>::empty() + patterns_in(form)[i] =~= patterns_in(form)[i]);
        }
    }
}

proof fn lemma_patterns_part(form: PatternForm, after: Seq<Item>)
    ensures
        take_patterns(patterns_part(form) + after) == Some((patterns_in(form), after)),
{
    let all = patterns_part(form) + after;
    match form {
        PatternForm::Empty => {
            assert(all.skip(3) =~= after);
        },
        PatternForm::One(p) => {
            assert(all.skip(3)[0] == Item::Text(p));
            assert(all.skip(3).skip(1) =~= after);
        },
        PatternForm::List(list) => {
            lemma_listed_texts(list);
            assert(all.skip(3) =~= texts_items(list) + after);
            lemma_texts(list, after);
        },
    }
}

proof fn lemma_names_part(list: Option<Seq<Seq<char>>>, after: Seq<Item>)
    ensures
        take_names(names_part(list) + after) == Some((names_in(list), after)),
{
    let all = names_part(list) + after;
    match list {
        Some(list) => {
            lemma_listed_texts(list);
            assert(all[0] == Item::Array(list.len()));
            lemma_texts(list, after);
        },
        None => {
            assert(all.skip(1) =~= after);
        },
    }
}

/// Each option of a rule has its bit, in what is written and in what is read.
pub proof fn options_have_their_bits(bits: u32)
    ensures
        ({
            let m = mask_of(bits);
            &&& m.kinds.image == (bits & 0x1 != 0)
            &&& m.kinds.media == (bits & 0x2 != 0)
            &&& m.kinds.object == (bits & 0x4 != 0)
            &&& m.kinds.other == (bits & 0x8 != 0)
            &&& m.kinds.ping == (bits & 0x10 != 0)
            &&& m.kinds.script == (bits & 0x20 != 0)
            &&& m.kinds.stylesheet == (bits & 0x40 != 0)
            &&& m.kinds.subdocument == (bits & 0x80 != 0)
            &&& m.kinds.websocket == (bits & 0x100 != 0)
            &&& m.kinds.xmlhttprequest == (bits & 0x200 != 0)
            &&& m.kinds.font == (bits & 0x400 != 0)
            &&& m.http == (bits & 0x800 != 0)
            &&& m.https == (bits & 0x1000 != 0)
            &&& m.important == (bits & 0x2000 != 0)
            &&& m.match_case == (bits & 0x4000 != 0)
            &&& m.third_party == (bits & 0x1_0000 != 0)
            &&& m.first_party == (bits & 0x2_0000 != 0)
            &&& m.left_anchor == (bits & 0x8_0000 != 0)
            &&& m.right_anchor == (bits & 0x10_0000 != 0)
            &&& m.hostname_anchor == (bits & 0x20_0000 != 0)
            &&& m.exception == (bits & 0x40_0000 != 0)
            &&& m.csp == (bits & 0x80_0000 != 0)
            &&& m.regex == (bits & 0x100_0000 != 0)
            &&& m.bad_filter == (bits & 0x800_0000 != 0)
            &&& m.kinds.document == (bits & 0x2000_0000 != 0)
            &&& m.generic_hide == (bits & 0x4000_0000 != 0)
            &&& m.redirect_only == (bits & 0x8000_0000 != 0)
        }),
{
}

/// A cosmetic rule is read from its tokens: whether it is an exception, whether it calls a
/// script, its style, its selector and its hosts. With a style it is for that.
pub proof fn cosmetic_rules_are_read(
    unhide: bool,
    script: bool,
    style: Option<Seq<char>>,
    selector: Seq<char>,
    hosts: Seq<Seq<char>>,
    not_hosts: Seq<Seq<char>>,
    after: Seq<Item>,
)
    ensures
        take_cosmetic(
            seq![
                Item::Array(6),
                Item::Bool(unhide),
                Item::Bool(script),
                maybe(style),
                Item::Text(selector),
            ] + (listed_texts(hosts) + (listed_texts(not_hosts) + after)),
        ) matches Some((read, next)) && {
            &&& next == after
            &&& read.unhide == unhide
            &&& read.action == match style {
                Some(style) => CosmeticAction::Style(style),
                None => if script {
                    CosmeticAction::Script
                } else {
                    CosmeticAction::Hide
                },
            }
            &&& read.selector == selector
            &&& read.hosts == hosts
            &&& read.not_hosts == not_hosts
        },
{
    let l2 = listed_texts(not_hosts) + after;
    let l1 = listed_texts(hosts) + l2;
    let l0 = seq![
        Item::Array(6),
        Item::Bool(unhide),
        Item::Bool(script),
        maybe(style),
        Item::Text(selector),
    ] + l1;
    assert(l0.skip(5) =~= l1);
    lemma_listed_texts(hosts);
    lemma_listed_texts(not_hosts);
    lemma_texts(hosts, l2);
    lemma_texts(not_hosts, after);
}

/// Bytes write a number, the highest first.
pub proof fn numbers_are_read_from_the_highest_byte(bytes: Seq<u8>, last: u8)
    ensures
        number_of(bytes.push(last)) == 256 * number_of(bytes) + last,
        number_of(Seq::empty()) == 0,
        number_of(seq![last]) == last,
{
    assert(bytes.push(last).drop_last() =~= bytes);
    assert(seq![last].drop_last() =~= Seq::<u8>::empty());
}

/// What a token starts with says what it is: small numbers, and the sizes of small maps and
/// arrays, are told by the first byte itself; those of others by the bytes that follow, be
/// they as few as would do or more.
pub proof fn tokens_are_told_by_their_first_byte(bytes: Seq<u8>)
    requires
        bytes.len() > 0,
        !(0xa0 <= bytes[0] <= 0xbf) && !(0xd9 <= bytes[0] <= 0xdb),
    ensures
        ({
            let code = bytes[0];
            let two = number_of(bytes.subrange(1, 3));
            let four = number_of(bytes.subrange(1, 5));
            first_token(bytes) == if code <= 0x7f {
                Some((Item::UInt(code as u64), 1int))
            } else if code <= 0x8f {
                Some((Item::Pairs((code - 0x80) as nat), 1int))
            } else if code <= 0x9f {
                Some((Item::Array((code - 0x90) as nat), 1int))
            } else if code == 0xc0 {
                Some((Item::Nil, 1int))
            } else if code == 0xc2 || code == 0xc3 {
                Some((Item::Bool(code == 0xc3), 1int))
            } else if code == 0xcc && bytes.len() >= 2 {
                Some((Item::UInt(number_of(bytes.subrange(1, 2)) as u64), 2int))
            } else if code == 0xcd && bytes.len() >= 3 {
                Some((Item::UInt(two as u64), 3int))
            } else if code == 0xce && bytes.len() >= 5 {
                Some((Item::UInt(four as u64), 5int))
            } else if code == 0xcf && bytes.len() >= 9 {
                Some((Item::UInt(number_of(bytes.subrange(1, 9)) as u64), 9int))
            } else if code == 0xdc && bytes.len() >= 3 {
                Some((Item::Array(two as nat), 3int))
            } else if code == 0xdd && bytes.len() >= 5 {
                Some((Item::Array(four as nat), 5int))
            } else if code == 0xde && bytes.len() >= 3 {
                Some((Item::Pairs(two as nat), 3int))
            } else if code == 0xdf && bytes.len() >= 5 {
                Some((Item::Pairs(four as nat), 5int))
            } else {
                None
            }
        }),
{
}

/// A text is told by its length, in the first byte or in those that follow it, and is read
/// from as many bytes.
pub proof fn texts_are_told_by_their_length(bytes: Seq<u8>, width: int, length: int)
    requires
        bytes.len() > 0,
        (0xa0 <= bytes[0] <= 0xbf && width == 0 && length == bytes[0] - 0xa0) || (bytes[0] == 0xd9
            && width == 1 && length == number_of(bytes.subrange(1, 2))) || (bytes[0] == 0xda && width
            == 2 && length == number_of(bytes.subrange(1, 3))) || (bytes[0] == 0xdb && width == 4
            && length == number_of(bytes.subrange(1, 5))),
        bytes.len() >= 1 + width,
        length >= 0,
    ensures
        first_token(bytes) == if bytes.len() >= 1 + width + length && valid_utf8(
            bytes.subrange(1 + width, 1 + width + length),
        ) {
            Some(
                (
                    Item::Text(decode_utf8(bytes.subrange(1 + width, 1 + width + length))),
                    1 + width + length,
                ),
            )
        } else {
            None
        },
{
}

/// Bytes that start with neither the mark of the raw format nor that of a gzip member hold
/// no engine; nor do those of the raw format in another version, nor a gzip member that
/// cannot be taken apart.
pub proof fn other_bytes_hold_no_engine(bytes: Seq<u8>)
    ensures
        !seq![0xd1u8, 0xd9u8, 0x3au8, 0xafu8].is_prefix_of(bytes) && !seq![
            0x1fu8,
            0x8bu8,
        ].is_prefix_of(bytes) ==> saved_in(bytes) is None,
        seq![0xd1u8, 0xd9u8, 0x3au8, 0xafu8].is_prefix_of(bytes) && (bytes.len() == 4 || bytes[4]
            != 0) ==> saved_in(bytes) is None,
        seq![0x1fu8, 0x8bu8].is_prefix_of(bytes) && gzip_data(bytes) is None ==> saved_in(
            bytes,
        ) is None,
{
    assert(raw_mark() =~= seq![0xd1u8, 0xd9u8, 0x3au8, 0xafu8]);
    assert(gzip_mark() =~= seq![0x1fu8, 0x8bu8]);
    if gzip_mark().is_prefix_of(bytes) && raw_mark().is_prefix_of(bytes) {
        assert(bytes.subrange(0, 2)[0] == bytes[0]);
        assert(bytes.subrange(0, 4)[0] == bytes[0]);
    }
}

/// An engine in the raw format starts with its mark and its version.
pub proof fn raw_engines_are_marked(data: DataModel)
    ensures
        seq![0xd1u8, 0xd9u8, 0x3au8, 0xafu8, 0u8].is_prefix_of(raw_bytes(data)),
{
    assert(raw_bytes(data).subrange(0, 5) =~= seq![0xd1u8, 0xd9u8, 0x3au8, 0xafu8, 0u8]);
}

/// The raw format holds the lists of rules, each behind the other, then the switch for
/// optimizations, the resources, the generic selectors, the cosmetic rules and the scripts.
pub proof fn raw_engines_are_written_in_order(data: DataModel)
    ensures
        raw_items(data) == seq![Item::Array(12)] + rules_items(data.csp) + rules_items(
            data.exceptions,
        ) + rules_items(data.importants) + rules_items(data.redirects) + rules_items(data.tagged)
            + rules_items(data.filters) + rules_items(data.generic_hide) + seq![
            Item::Bool(data.enable_optimizations),
        ] + resources_items(data.resources) + texts_items(data.generic) + cosmetics_items(
            data.specific,
        ) + scripts_items(data.scriptlets),
{
    let g = rules_writer();
    let none = Seq::<Seq<NetworkRule>>::empty();
    let l1 = none.push(data.csp);
    let l2 = l1.push(data.exceptions);
    let l3 = l2.push(data.importants);
    let l4 = l3.push(data.redirects);
    let l5 = l4.push(data.tagged);
    let l6 = l5.push(data.filters);
    let l7 = l6.push(data.generic_hide);
    assert(raw_lists(data) =~= l7);
    lemma_one_more_list(none, data.csp);
    lemma_one_more_list(l1, data.exceptions);
    lemma_one_more_list(l2, data.importants);
    lemma_one_more_list(l3, data.redirects);
    lemma_one_more_list(l4, data.tagged);
    lemma_one_more_list(l5, data.filters);
    lemma_one_more_list(l6, data.generic_hide);
    assert(many_items(none, g) =~= Seq::<Item>::empty());
    assert(raw_items(data) =~= seq![Item::Array(12)] + rules_items(data.csp) + rules_items(
        data.exceptions,
    ) + rules_items(data.importants) + rules_items(data.redirects) + rules_items(data.tagged)
        + rules_items(data.filters) + rules_items(data.generic_hide) + seq![
        Item::Bool(data.enable_optimizations),
    ] + resources_items(data.resources) + texts_items(data.generic) + cosmetics_items(
        data.specific,
    ) + scripts_items(data.scriptlets));
}

proof fn lemma_one_more_list(lists: Seq<Seq<NetworkRule>>, list: Seq<NetworkRule>)
    ensures
        many_items(lists.push(list), rules_writer()) == many_items(lists, rules_writer())
            + rules_items(list),
{
    assert(lists.push(list).drop_last() =~= lists);
}

} // verus!

//! The bytes that an engine is saved as.
//!
//! There are two formats. One is marked by four bytes and a version, which a row
//! of tokens follows. The other is a gzip member; it groups the rules by keys, and
//! what came to it later stands at the end and may be missing.

use vstd::prelude::*;
use vstd::slice::slice_subrange;

use crate::blocker::Blocker;
use crate::codec::{
    fetch_many, lemma_rest, models, push_cosmetics, push_one, push_resources, push_rules,
    push_scripts, push_strings, read_cosmetics, read_resources, read_rules, read_scripts,
    read_strings, Form,
};
use crate::cosmetic_filter_cache::CosmeticFilterCache;
use crate::directory::Directory;
use crate::filters::cosmetic::{cosmetic_rules, CosmeticFilter, CosmeticRule};
use crate::filters::network::{rules, NetworkFilter, NetworkRule};
use crate::layout::{
    cosmetics_items, lemma_cosmetics, lemma_many, lemma_resources,
    lemma_rules, lemma_scripts, lemma_texts, many_items, resources_items, rest, rules_items,
    scripts_items, take_cosmetics, take_many, take_pairs, take_resources, take_rules,
    take_scripts, take_texts, texts_items,
};
use crate::msgpack::{
    all_fit, all_written, items, lemma_all_written, push_bytes, read_items, read_tokens,
    write_tokens, Item, Token,
};
use crate::outside::{gunzip, gzip, gzip_data, gzip_member, opt_bytes};
use crate::resources::{
    RedirectModel, RedirectResource, RedirectResourceStorage, ScriptletResourceStorage,
};
use crate::text::strings;

verus! {

/// What is saved of an engine.
#[verifier::ext_equal]
pub struct DataModel {
    pub csp: Seq<NetworkRule>,
    pub exceptions: Seq<NetworkRule>,
    pub importants: Seq<NetworkRule>,
    pub redirects: Seq<NetworkRule>,
    pub tagged: Seq<NetworkRule>,
    pub filters: Seq<NetworkRule>,
    pub generic_hide: Seq<NetworkRule>,
    pub enable_optimizations: bool,
    pub resources: Seq<(Seq<char>, RedirectModel)>,
    pub generic: Seq<Seq<char>>,
    pub specific: Seq<CosmeticRule>,
    pub scriptlets: Seq<(Seq<char>, Seq<char>)>,
}

/// What is saved of an engine: everything but the tags that are enabled.
pub open spec fn data_of(blocker: Blocker, cache: CosmeticFilterCache) -> DataModel {
    DataModel {
        csp: rules(blocker.csp@),
        exceptions: rules(blocker.exceptions@),
        importants: rules(blocker.importants@),
        redirects: rules(blocker.redirects@),
        tagged: rules(blocker.tagged@),
        filters: rules(blocker.filters@),
        generic_hide: rules(blocker.generic_hide@),
        enable_optimizations: blocker.enable_optimizations,
        resources: blocker.resources.resources.pairs(),
        generic: strings(cache.generic@),
        specific: cosmetic_rules(cache.specific@),
        scriptlets: cache.scriptlets.scriptlets.pairs(),
    }
}

/// What writes a list of rules.
pub open spec fn rules_writer() -> spec_fn(Seq<NetworkRule>) -> Seq<Item> {
    |list: Seq<NetworkRule>| rules_items(list)
}

/// What takes a list of rules.
pub open spec fn rules_taker() -> spec_fn(Seq<Item>) -> Option<(Seq<NetworkRule>, Seq<Item>)> {
    |list: Seq<Item>| take_rules(list)
}

/// The cosmetic part of what is saved, which ends it.
pub open spec fn cosmetic_part(data: DataModel) -> Seq<Item> {
    texts_items(data.generic) + cosmetics_items(data.specific) + scripts_items(data.scriptlets)
}

/// What is saved, but for its cosmetic part.
pub open spec fn with_cosmetic_part(data: DataModel, list: Seq<Item>) -> Option<DataModel> {
    match take_texts(list) {
        Some((generic, l1)) => match take_cosmetics(l1) {
            Some((specific, l2)) => match take_scripts(l2) {
                Some((scriptlets, l3)) => if l3.len() == 0 {
                    Some(DataModel { generic, specific, scriptlets, ..data })
                } else {
                    None
                },
                None => None,
            },
            None => None,
        },
        None => None,
    }
}

/// The lists of rules, in the order of the raw format.
pub open spec fn raw_lists(data: DataModel) -> Seq<Seq<NetworkRule>> {
    seq![
        data.csp,
        data.exceptions,
        data.importants,
        data.redirects,
        data.tagged,
        data.filters,
        data.generic_hide,
    ]
}

/// The tokens of the raw format.
pub open spec fn raw_items(data: DataModel) -> Seq<Item> {
    seq![Item::Array(12)] + many_items(raw_lists(data), rules_writer()) + seq![
        Item::Bool(data.enable_optimizations),
    ] + resources_items(data.resources) + cosmetic_part(data)
}

/// What tokens of the raw format hold.
pub open spec fn take_raw(list: Seq<Item>) -> Option<DataModel> {
    if list.len() == 0 || list[0] != Item::Array(12) {
        None
    } else {
        match take_many(list.skip(1), 7, rules_taker()) {
            Some((lists, l1)) => if l1.len() == 0 || !(l1[0] is Bool) {
                None
            } else {
                match take_resources(l1.skip(1)) {
                    Some((resources, l2)) => with_cosmetic_part(
                        DataModel {
                            csp: lists[0],
                            exceptions: lists[1],
                            importants: lists[2],
                            redirects: lists[3],
                            tagged: lists[4],
                            filters: lists[5],
                            generic_hide: lists[6],
                            enable_optimizations: l1[0]->Bool_0,
                            resources,
                            generic: Seq::empty(),
                            specific: Seq::empty(),
                            scriptlets: Seq::empty(),
                        },
                        l2,
                    ),
                    None => None,
                }
            },
            None => None,
        }
    }
}

/// Some rules under a key.
pub open spec fn take_group(list: Seq<Item>) -> Option<(Seq<NetworkRule>, Seq<Item>)> {
    if list.len() == 0 || !(list[0] is UInt) {
        None
    } else {
        take_rules(list.skip(1))
    }
}

/// What takes some rules under a key.
pub open spec fn group_taker() -> spec_fn(Seq<Item>) -> Option<(Seq<NetworkRule>, Seq<Item>)> {
    |list: Seq<Item>| take_group(list)
}

/// The rules of some groups.
pub open spec fn ungrouped(groups: Seq<Seq<NetworkRule>>) -> Seq<NetworkRule>
    decreases groups.len(),
{
    if groups.len() == 0 {
        Seq::empty()
    } else {
        ungrouped(groups.drop_last()) + groups.last()
    }
}

/// Rules in groups: an array of one map.
pub open spec fn take_grouped(list: Seq<Item>) -> Option<(Seq<NetworkRule>, Seq<Item>)> {
    if list.len() == 0 || list[0] != Item::Array(1) {
        None
    } else {
        match take_pairs(list.skip(1)) {
            Some((n, next)) => match take_many(next, n, group_taker()) {
                Some((groups, last)) => Some((ungrouped(groups), last)),
                None => None,
            },
            None => None,
        }
    }
}

/// The tokens of some rules under a key.
pub open spec fn group_items(list: Seq<NetworkRule>) -> Seq<Item> {
    seq![Item::UInt(0)] + rules_items(list)
}

/// What writes some rules under a key.
pub open spec fn group_writer() -> spec_fn(Seq<NetworkRule>) -> Seq<Item> {
    |list: Seq<NetworkRule>| group_items(list)
}

/// The tokens of rules in one group.
pub open spec fn grouped_items(list: Seq<NetworkRule>) -> Seq<Item> {
    seq![Item::Array(1), Item::Pairs(1)] + group_items(list)
}

/// What writes rules in one group.
pub open spec fn grouped_writer() -> spec_fn(Seq<NetworkRule>) -> Seq<Item> {
    |list: Seq<NetworkRule>| grouped_items(list)
}

/// What takes rules in groups.
pub open spec fn grouped_taker() -> spec_fn(Seq<Item>) -> Option<(Seq<NetworkRule>, Seq<Item>)> {
    |list: Seq<Item>| take_grouped(list)
}

/// The lists of rules in groups, in the order of the compressed format. The fifth
/// repeats tagged rules, and is left empty.
pub open spec fn grouped_lists(data: DataModel) -> Seq<Seq<NetworkRule>> {
    seq![
        data.csp,
        data.exceptions,
        data.importants,
        data.redirects,
        Seq::empty(),
        data.filters,
    ]
}

/// What came to the compressed format later.
pub open spec fn later_items(data: DataModel) -> Seq<Item> {
    seq![Item::Array(4)] + (rules_items(data.generic_hide) + cosmetic_part(data))
}

/// The switches of the compressed format.
pub open spec fn switch_items(data: DataModel) -> Seq<Item> {
    seq![
        Item::Bool(false),
        Item::Bool(data.enable_optimizations),
        Item::Bool(false),
        Item::Bool(true),
    ]
}

/// The resources of the compressed format, and what follows.
pub open spec fn answer_items(data: DataModel) -> Seq<Item> {
    seq![Item::Array(1)] + (resources_items(data.resources) + later_items(data))
}

/// The tokens of the compressed format.
pub open spec fn grouped_data_items(data: DataModel) -> Seq<Item> {
    seq![Item::Array(12)] + (many_items(grouped_lists(data), grouped_writer()) + (rules_items(
        data.tagged,
    ) + (switch_items(data) + answer_items(data))))
}

/// What came to the compressed format later: rules against generic hiding and the
/// cosmetic part. Where it is missing, there are none.
pub open spec fn take_later(data: DataModel, list: Seq<Item>) -> Option<DataModel> {
    if list.len() == 0 {
        Some(data)
    } else if list[0] != Item::Array(4) {
        None
    } else {
        match take_rules(list.skip(1)) {
            Some((generic_hide, next)) => with_cosmetic_part(
                DataModel { generic_hide, ..data },
                next,
            ),
            None => None,
        }
    }
}

/// The resources of the compressed format, where it says that it holds them.
pub open spec fn take_answers(list: Seq<Item>, present: bool) -> Option<
    (Seq<(Seq<char>, RedirectModel)>, Seq<Item>),
> {
    if !present {
        Some((Seq::empty(), list))
    } else if list.len() == 0 || list[0] != Item::Array(1) {
        None
    } else {
        take_resources(list.skip(1))
    }
}

/// What tokens of the compressed format hold.
pub open spec fn take_grouped_data(list: Seq<Item>) -> Option<DataModel> {
    if list.len() == 0 || (list[0] != Item::Array(11) && list[0] != Item::Array(12)) {
        None
    } else {
        match take_many(list.skip(1), 6, grouped_taker()) {
            Some((lists, l1)) => match take_rules(l1) {
                Some((tagged, l2)) => if l2.len() < 4 || !(l2[0] is Bool) || !(l2[1] is Bool) || !(
                l2[2] is Bool) || !(l2[3] is Bool) {
                    None
                } else {
                    match take_answers(l2.skip(4), list[0] == Item::Array(12)) {
                        Some((resources, l3)) => take_later(
                            DataModel {
                                csp: lists[0],
                                exceptions: lists[1],
                                importants: lists[2],
                                redirects: lists[3],
                                tagged,
                                filters: lists[5],
                                generic_hide: Seq::empty(),
                                enable_optimizations: l2[1]->Bool_0,
                                resources,
                                generic: Seq::empty(),
                                specific: Seq::empty(),
                                scriptlets: Seq::empty(),
                            },
                            l3,
                        ),
                        None => None,
                    }
                },
                None => None,
            },
            None => None,
        }
    }
}

/// The bytes that mark the raw format.
pub open spec fn raw_mark() -> Seq<u8> {
    seq![0xd1u8, 0xd9u8, 0x3au8, 0xafu8]
}

/// The bytes that mark a gzip member.
pub open spec fn gzip_mark() -> Seq<u8> {
    seq![0x1fu8, 0x8bu8]
}

/// What is saved, in the raw format.
pub open spec fn raw_bytes(data: DataModel) -> Seq<u8> {
    raw_mark() + seq![0u8] + all_written(raw_items(data))
}

/// What is saved, in the format that is then compressed.
pub open spec fn grouped_bytes(data: DataModel) -> Seq<u8> {
    all_written(grouped_data_items(data))
}

/// What bytes that were compressed hold; none where they are not in the format.
pub open spec fn grouped_in(data: Seq<u8>) -> Option<DataModel> {
    match read_items(data) {
        Some(list) => take_grouped_data(list),
        None => None,
    }
}

/// What bytes in either format hold; none where they are in no format.
pub open spec fn saved_in(bytes: Seq<u8>) -> Option<DataModel> {
    if raw_mark().is_prefix_of(bytes) {
        if bytes.len() > 4 && bytes[4] == 0 {
            match read_items(bytes.skip(5)) {
                Some(list) => take_raw(list),
                None => None,
            }
        } else {
            None
        }
    } else if gzip_mark().is_prefix_of(bytes) {
        match gzip_data(bytes) {
            Some(data) => grouped_in(data),
            None => None,
        }
    } else {
        None
    }
}

proof fn lemma_cosmetic_part(data: DataModel, before: DataModel)
    ensures
        with_cosmetic_part(before, cosmetic_part(data)) == Some(
            DataModel {
                generic: data.generic,
                specific: data.specific,
                scriptlets: data.scriptlets,
                ..before
            },
        ),
{
    let end = Seq::<Item>::empty();
    let l2 = scripts_items(data.scriptlets);
    let l1 = cosmetics_items(data.specific) + l2;
    assert(cosmetic_part(data) =~= texts_items(data.generic) + l1);
    assert(l2 =~= l2 + end);
    lemma_texts(data.generic, l1);
    lemma_cosmetics(data.specific, l2);
    lemma_scripts(data.scriptlets, end);
}

/// What is saved can be read back from the tokens of the raw format.
pub proof fn lemma_raw_items(data: DataModel)
    ensures
        take_raw(raw_items(data)) == Some(data),
{
    let g = rules_writer();
    let f = rules_taker();
    assert forall|x: Seq<NetworkRule>, r: Seq<Item>| #[trigger] f(g(x) + r) == Some((x, r)) by {
        lemma_rules(x, r);
    }
    let lists = raw_lists(data);
    let l2 = cosmetic_part(data);
    let l11 = resources_items(data.resources) + l2;
    let l1 = seq![Item::Bool(data.enable_optimizations)] + l11;
    assert(raw_items(data).skip(1) =~= many_items(lists, g) + l1);
    assert(raw_items(data)[0] == Item::Array(12));
    lemma_many(lists, g, f, l1);
    assert(l1.skip(1) =~= l11);
    lemma_resources(data.resources, l2);
    let before = DataModel {
        generic: Seq::empty(),
        specific: Seq::empty(),
        scriptlets: Seq::empty(),
        ..data
    };
    lemma_cosmetic_part(data, before);
}

proof fn lemma_grouped(list: Seq<NetworkRule>, after: Seq<Item>)
    ensures
        take_grouped(grouped_items(list) + after) == Some((list, after)),
{
    let all = grouped_items(list) + after;
    let next = seq![Item::UInt(0)] + rules_items(list) + after;
    let f = group_taker();
    assert(all.skip(1) =~= seq![Item::Pairs(1)] + next);
    assert(all.skip(1).skip(1) =~= next);
    assert(next.skip(1) =~= rules_items(list) + after);
    lemma_rules(list, after);
    assert(f(next) == Some((list, after)));
    let groups = Seq::<Seq<NetworkRule>>::empty().push(list);
    assert(take_many(next, 0, f) == Some((Seq::<Seq<NetworkRule>>::empty(), next)));
    assert(take_many(next, 1, f) == Some((groups, after)));
    assert(groups.drop_last() =~= Seq::empty());
    assert(ungrouped(groups.drop_last()) =~= Seq::empty());
    assert(ungrouped(groups) =~= list);
}

proof fn lemma_later(data: DataModel, before: DataModel)
    ensures
        take_later(before, later_items(data)) == Some(
            DataModel {
                generic_hide: data.generic_hide,
                generic: data.generic,
                specific: data.specific,
                scriptlets: data.scriptlets,
                ..before
            },
        ),
{
    let next = rules_items(data.generic_hide) + cosmetic_part(data);
    assert(later_items(data).skip(1) =~= next);
    lemma_rules(data.generic_hide, cosmetic_part(data));
    lemma_cosmetic_part(data, DataModel { generic_hide: data.generic_hide, ..before });
}

proof fn lemma_answers(data: DataModel)
    ensures
        take_answers(answer_items(data), true) == Some((data.resources, later_items(data))),
{
    let next = resources_items(data.resources) + later_items(data);
    assert(answer_items(data).skip(1) =~= next);
    lemma_resources(data.resources, later_items(data));
}

/// What is saved can be read back from the tokens of the compressed format.
pub proof fn lemma_grouped_data_items(data: DataModel)
    ensures
        take_grouped_data(grouped_data_items(data)) == Some(data),
{
    let g = grouped_writer();
    let f = grouped_taker();
    assert forall|x: Seq<NetworkRule>, r: Seq<Item>| #[trigger] f(g(x) + r) == Some((x, r)) by {
        lemma_grouped(x, r);
    }
    let lists = grouped_lists(data);
    let all = grouped_data_items(data);
    let l2 = switch_items(data) + answer_items(data);
    let l1 = rules_items(data.tagged) + l2;
    assert(all.skip(1) =~= many_items(lists, g) + l1);
    assert(all[0] == Item::Array(12));
    lemma_many(lists, g, f, l1);
    lemma_rules(data.tagged, l2);
    assert(l2.skip(4) =~= answer_items(data));
    lemma_answers(data);
    let before = DataModel {
        generic_hide: Seq::empty(),
        generic: Seq::empty(),
        specific: Seq::empty(),
        scriptlets: Seq::empty(),
        ..data
    };
    lemma_later(data, before);
}

/// What is saved in the raw format can be read back.
pub proof fn lemma_raw_bytes(data: DataModel)
    requires
        all_fit(raw_items(data)),
    ensures
        saved_in(raw_bytes(data)) == Some(data),
{
    let bytes = raw_bytes(data);
    lemma_all_written(raw_items(data));
    lemma_raw_items(data);
    assert(bytes.skip(5) =~= all_written(raw_items(data)));
    assert(bytes.subrange(0, 4) =~= raw_mark());
}

/// What is saved in the compressed format can be read back, by whatever
/// compression that starts with the mark of a gzip member and gives back the data.
pub proof fn lemma_compressed_bytes(data: DataModel, bytes: Seq<u8>)
    requires
        all_fit(grouped_data_items(data)),
        gzip_mark().is_prefix_of(bytes),
        gzip_data(bytes) == Some(grouped_bytes(data)),
    ensures
        saved_in(bytes) == Some(data),
{
    lemma_all_written(grouped_data_items(data));
    lemma_grouped_data_items(data);
    assert(bytes[0] == 0x1f) by {
        assert(bytes.subrange(0, 2)[0] == gzip_mark()[0]);
    }
    if raw_mark().is_prefix_of(bytes) {
        assert(bytes.subrange(0, 4)[0] == raw_mark()[0]);
    }
}

/// The rules of some lists.
spec fn rule_lists(lists: Seq<Vec<NetworkFilter>>) -> Seq<Seq<NetworkRule>> {
    lists.map_values(|l: Vec<NetworkFilter>| rules(l@))
}

/// A list of rules.
pub struct RulesForm {}

impl Form for RulesForm {
    type Value = Vec<NetworkFilter>;

    type Model = Seq<NetworkRule>;

    open spec fn model(value: Vec<NetworkFilter>) -> Seq<NetworkRule> {
        rules(value@)
    }

    open spec fn writer() -> spec_fn(Seq<NetworkRule>) -> Seq<Item> {
        rules_writer()
    }

    open spec fn taker() -> spec_fn(Seq<Item>) -> Option<(Seq<NetworkRule>, Seq<Item>)> {
        rules_taker()
    }

    fn put(out: &mut Vec<Token>, value: &Vec<NetworkFilter>) {
        push_rules(out, value);
        assert(items(out@) =~= items(old(out)@) + (Self::writer())(Self::model(*value)));
    }

    fn fetch(tokens: &Vec<Token>, pos: usize) -> (r: Option<(Vec<NetworkFilter>, usize)>) {
        read_rules(tokens, pos)
    }
}

/// Reads some rules under a key.
fn read_group(tokens: &Vec<Token>, pos: usize) -> (r: Option<(Vec<NetworkFilter>, usize)>)
    requires
        pos <= tokens@.len(),
    ensures
        match r {
            Some((list, next)) => {
                &&& pos <= next <= tokens@.len()
                &&& take_group(rest(tokens@, pos as int)) == Some(
                    (rules(list@), rest(tokens@, next as int)),
                )
            },
            None => take_group(rest(tokens@, pos as int)) is None,
        },
{
    if pos >= tokens.len() {
        return None;
    }
    proof {
        lemma_rest(tokens@, pos as int, 1);
    }
    match &tokens[pos] {
        Token::UInt(_) => read_rules(tokens, pos + 1),
        _ => None,
    }
}

/// Some rules under a key.
pub struct GroupForm {}

impl Form for GroupForm {
    type Value = Vec<NetworkFilter>;

    type Model = Seq<NetworkRule>;

    open spec fn model(value: Vec<NetworkFilter>) -> Seq<NetworkRule> {
        rules(value@)
    }

    open spec fn writer() -> spec_fn(Seq<NetworkRule>) -> Seq<Item> {
        group_writer()
    }

    open spec fn taker() -> spec_fn(Seq<Item>) -> Option<(Seq<NetworkRule>, Seq<Item>)> {
        group_taker()
    }

    fn put(out: &mut Vec<Token>, value: &Vec<NetworkFilter>) {
        push_one(out, Token::UInt(0));
        push_rules(out, value);
        assert(items(out@) =~= items(old(out)@) + (Self::writer())(Self::model(*value)));
    }

    fn fetch(tokens: &Vec<Token>, pos: usize) -> (r: Option<(Vec<NetworkFilter>, usize)>) {
        read_group(tokens, pos)
    }
}

/// The rules of some groups.
fn ungroup(groups: Vec<Vec<NetworkFilter>>) -> (r: Vec<NetworkFilter>)
    ensures
        rules(r@) == ungrouped(rule_lists(groups@)),
{
    let ghost all = rule_lists(groups@);
    let mut r: Vec<NetworkFilter> = Vec::new();
    let mut i: usize = 0;
    assert(rules(r@) =~= ungrouped(all.take(0)));
    while i < groups.len()
        invariant
            i <= groups@.len(),
            all == rule_lists(groups@),
            rules(r@) == ungrouped(all.take(i as int)),
        decreases groups@.len() - i,
    {
        let ghost before = rules(r@);
        let ghost group = rules(groups@[i as int]@);
        let mut k: usize = 0;
        assert(before =~= before + group.take(0));
        while k < groups[i].len()
            invariant
                i < groups@.len(),
                k <= groups@[i as int]@.len(),
                group == rules(groups@[i as int]@),
                rules(r@) == before + group.take(k as int),
            decreases groups@[i as int]@.len() - k,
        {
            let ghost so_far = rules(r@);
            let rule = groups[i][k].copy();
            let ghost model = rule@;
            r.push(rule);
            assert(rules(r@) =~= so_far.push(model));
            assert(rules(r@) =~= before + group.take(k + 1));
            k += 1;
        }
        proof {
            assert(group.take(k as int) =~= group);
            assert(all.take(i + 1).drop_last() =~= all.take(i as int));
            assert(all.take(i + 1).last() == group);
        }
        i += 1;
    }
    assert(all.take(i as int) =~= all);
    r
}

/// Reads rules in groups.
fn read_grouped(tokens: &Vec<Token>, pos: usize) -> (r: Option<(Vec<NetworkFilter>, usize)>)
    requires
        pos <= tokens@.len(),
    ensures
        match r {
            Some((list, next)) => {
                &&& pos <= next <= tokens@.len()
                &&& take_grouped(rest(tokens@, pos as int)) == Some(
                    (rules(list@), rest(tokens@, next as int)),
                )
            },
            None => take_grouped(rest(tokens@, pos as int)) is None,
        },
{
    if tokens.len() - pos < 2 {
        proof {
            if pos < tokens@.len() {
                lemma_rest(tokens@, pos as int, 1);
            }
        }
        return None;
    }
    proof {
        lemma_rest(tokens@, pos as int, 1);
        lemma_rest(tokens@, pos + 1, 1);
    }
    match (&tokens[pos], &tokens[pos + 1]) {
        (Token::Array(1), Token::Pairs(n)) => match fetch_many::<GroupForm>(tokens, pos + 2, *n) {
            Some((groups, next)) => {
                assert(models::<GroupForm>(groups@) =~= rule_lists(groups@));
                Some((ungroup(groups), next))
            },
            None => None,
        },
        _ => None,
    }
}

/// Rules in groups, which are written as one.
pub struct GroupedForm {}

impl Form for GroupedForm {
    type Value = Vec<NetworkFilter>;

    type Model = Seq<NetworkRule>;

    open spec fn model(value: Vec<NetworkFilter>) -> Seq<NetworkRule> {
        rules(value@)
    }

    open spec fn writer() -> spec_fn(Seq<NetworkRule>) -> Seq<Item> {
        grouped_writer()
    }

    open spec fn taker() -> spec_fn(Seq<Item>) -> Option<(Seq<NetworkRule>, Seq<Item>)> {
        grouped_taker()
    }

    fn put(out: &mut Vec<Token>, value: &Vec<NetworkFilter>) {
        push_one(out, Token::Array(1));
        push_one(out, Token::Pairs(1));
        GroupForm::put(out, value);
        assert(items(out@) =~= items(old(out)@) + (Self::writer())(Self::model(*value)));
    }

    fn fetch(tokens: &Vec<Token>, pos: usize) -> (r: Option<(Vec<NetworkFilter>, usize)>) {
        read_grouped(tokens, pos)
    }
}

proof fn lemma_many_push(
    lists: Seq<Seq<NetworkRule>>,
    list: Seq<NetworkRule>,
    g: spec_fn(Seq<NetworkRule>) -> Seq<Item>,
)
    ensures
        many_items(lists.push(list), g) == many_items(lists, g) + g(list),
{
    assert(lists.push(list).drop_last() =~= lists);
}

/// Writes one more list of rules.
fn put_next<F: Form<Value = Vec<NetworkFilter>, Model = Seq<NetworkRule>>>(
    out: &mut Vec<Token>,
    list: &Vec<NetworkFilter>,
    Ghost(base): Ghost<Seq<Item>>,
    Ghost(lists): Ghost<Seq<Seq<NetworkRule>>>,
)
    requires
        items(old(out)@) == base + many_items(lists, F::writer()),
    ensures
        items(final(out)@) == base + many_items(lists.push(F::model(*list)), F::writer()),
{
    F::put(out, list);
    proof {
        lemma_many_push(lists, F::model(*list), F::writer());
    }
    assert(items(out@) =~= base + many_items(lists.push(F::model(*list)), F::writer()));
}

fn push_cosmetic_part(
    out: &mut Vec<Token>,
    cache: &CosmeticFilterCache,
    Ghost(data): Ghost<DataModel>,
)
    requires
        data.generic == strings(cache.generic@),
        data.specific == cosmetic_rules(cache.specific@),
        data.scriptlets == cache.scriptlets.scriptlets.pairs(),
    ensures
        items(final(out)@) == items(old(out)@) + cosmetic_part(data),
{
    push_strings(out, &cache.generic);
    push_cosmetics(out, &cache.specific);
    push_scripts(out, &cache.scriptlets.scriptlets);
    assert(items(out@) =~= items(old(out)@) + cosmetic_part(data));
}

/// The tokens of the raw format.
fn raw_tokens(blocker: &Blocker, cache: &CosmeticFilterCache) -> (out: Vec<Token>)
    ensures
        items(out@) == raw_items(data_of(*blocker, *cache)),
{
    let ghost data = data_of(*blocker, *cache);
    let ghost g = rules_writer();
    let ghost base = seq![Item::Array(12)];
    let mut out: Vec<Token> = Vec::new();
    push_one(&mut out, Token::Array(12));
    let ghost none = Seq::<Seq<NetworkRule>>::empty();
    assert(items(out@) =~= base + many_items(none, g));
    put_next::<RulesForm>(&mut out, &blocker.csp, Ghost(base), Ghost(none));
    let ghost lists = none.push(data.csp);
    put_next::<RulesForm>(&mut out, &blocker.exceptions, Ghost(base), Ghost(lists));
    let ghost lists = lists.push(data.exceptions);
    put_next::<RulesForm>(&mut out, &blocker.importants, Ghost(base), Ghost(lists));
    let ghost lists = lists.push(data.importants);
    put_next::<RulesForm>(&mut out, &blocker.redirects, Ghost(base), Ghost(lists));
    let ghost lists = lists.push(data.redirects);
    put_next::<RulesForm>(&mut out, &blocker.tagged, Ghost(base), Ghost(lists));
    let ghost lists = lists.push(data.tagged);
    put_next::<RulesForm>(&mut out, &blocker.filters, Ghost(base), Ghost(lists));
    let ghost lists = lists.push(data.filters);
    put_next::<RulesForm>(&mut out, &blocker.generic_hide, Ghost(base), Ghost(lists));
    let ghost lists = lists.push(data.generic_hide);
    assert(lists =~= raw_lists(data));
    let ghost front = items(out@);
    push_one(&mut out, Token::Bool(blocker.enable_optimizations));
    assert(items(out@) =~= front + seq![Item::Bool(data.enable_optimizations)]);
    push_resources(&mut out, &blocker.resources.resources);
    push_cosmetic_part(&mut out, cache, Ghost(data));
    out
}

/// The tokens of the compressed format.
fn grouped_tokens(blocker: &Blocker, cache: &CosmeticFilterCache) -> (out: Vec<Token>)
    ensures
        items(out@) == grouped_data_items(data_of(*blocker, *cache)),
{
    let ghost data = data_of(*blocker, *cache);
    let ghost g = grouped_writer();
    let ghost base = seq![Item::Array(12)];
    let mut out: Vec<Token> = Vec::new();
    push_one(&mut out, Token::Array(12));
    let ghost none = Seq::<Seq<NetworkRule>>::empty();
    assert(items(out@) =~= base + many_items(none, g));
    put_next::<GroupedForm>(&mut out, &blocker.csp, Ghost(base), Ghost(none));
    let ghost lists = none.push(data.csp);
    put_next::<GroupedForm>(&mut out, &blocker.exceptions, Ghost(base), Ghost(lists));
    let ghost lists = lists.push(data.exceptions);
    put_next::<GroupedForm>(&mut out, &blocker.importants, Ghost(base), Ghost(lists));
    let ghost lists = lists.push(data.importants);
    put_next::<GroupedForm>(&mut out, &blocker.redirects, Ghost(base), Ghost(lists));
    let ghost lists = lists.push(data.redirects);
    let nothing: Vec<NetworkFilter> = Vec::new();
    assert(rules(nothing@) =~= Seq::empty());
    put_next::<GroupedForm>(&mut out, &nothing, Ghost(base), Ghost(lists));
    let ghost lists = lists.push(Seq::empty());
    put_next::<GroupedForm>(&mut out, &blocker.filters, Ghost(base), Ghost(lists));
    let ghost lists = lists.push(data.filters);
    assert(lists =~= grouped_lists(data));
    let ghost l0 = items(out@);
    push_rules(&mut out, &blocker.tagged);
    let ghost l1 = items(out@);
    push_one(&mut out, Token::Bool(false));
    push_one(&mut out, Token::Bool(blocker.enable_optimizations));
    push_one(&mut out, Token::Bool(false));
    push_one(&mut out, Token::Bool(true));
    assert(items(out@) =~= l1 + switch_items(data));
    let ghost l2 = items(out@);
    push_one(&mut out, Token::Array(1));
    push_resources(&mut out, &blocker.resources.resources);
    let ghost l3 = items(out@);
    push_one(&mut out, Token::Array(4));
    push_rules(&mut out, &blocker.generic_hide);
    push_cosmetic_part(&mut out, cache, Ghost(data));
    proof {
        assert(items(out@) =~= l3 + later_items(data));
        assert(items(out@) =~= l2 + answer_items(data));
        assert(items(out@) =~= l1 + (switch_items(data) + answer_items(data)));
        assert(items(out@) =~= l0 + (rules_items(data.tagged) + (switch_items(data) + answer_items(
            data,
        ))));
    }
    out
}

/// Saves an engine in the raw format.
pub fn save_raw(blocker: &Blocker, cache: &CosmeticFilterCache) -> (r: Option<Vec<u8>>)
    ensures
        r is Some <==> all_fit(raw_items(data_of(*blocker, *cache))),
        r matches Some(bytes) ==> {
            &&& bytes@ == raw_bytes(data_of(*blocker, *cache))
            &&& saved_in(bytes@) == Some(data_of(*blocker, *cache))
        },
{
    match write_tokens(&raw_tokens(blocker, cache)) {
        Some(tail) => {
            let mut bytes: Vec<u8> = Vec::new();
            bytes.push(0xd1);
            bytes.push(0xd9);
            bytes.push(0x3a);
            bytes.push(0xaf);
            bytes.push(0);
            push_bytes(&mut bytes, tail.as_slice());
            proof {
                assert(bytes@ =~= raw_bytes(data_of(*blocker, *cache)));
                lemma_raw_bytes(data_of(*blocker, *cache));
            }
            Some(bytes)
        },
        None => None,
    }
}

/// Saves an engine in the compressed format.
pub fn save_compressed(blocker: &Blocker, cache: &CosmeticFilterCache) -> (r: Option<Vec<u8>>)
    ensures
        opt_bytes(r) == if all_fit(grouped_data_items(data_of(*blocker, *cache))) {
            gzip_member(grouped_bytes(data_of(*blocker, *cache)))
        } else {
            None
        },
        r matches Some(bytes) ==> {
            &&& gzip_mark().is_prefix_of(bytes@)
            &&& gzip_data(bytes@) == Some(grouped_bytes(data_of(*blocker, *cache)))
            &&& saved_in(bytes@) == Some(data_of(*blocker, *cache))
        },
{
    match write_tokens(&grouped_tokens(blocker, cache)) {
        Some(data) => {
            let r = gzip(data.as_slice());
            proof {
                if r is Some {
                    lemma_compressed_bytes(data_of(*blocker, *cache), r->0@);
                }
            }
            r
        },
        None => None,
    }
}

/// Takes the last of some lists.
fn pop_list(lists: &mut Vec<Vec<NetworkFilter>>) -> (r: Vec<NetworkFilter>)
    requires
        old(lists)@.len() > 0,
    ensures
        rules(r@) == rule_lists(old(lists)@).last(),
        rule_lists(final(lists)@) == rule_lists(old(lists)@).drop_last(),
        final(lists)@.len() == old(lists)@.len() - 1,
{
    let r = lists.pop().unwrap();
    assert(rule_lists(lists@) =~= rule_lists(old(lists)@).drop_last());
    r
}

/// Reads the cosmetic part of what is saved, which ends it.
fn read_cosmetic_part(
    tokens: &Vec<Token>,
    pos: usize,
    Ghost(before): Ghost<DataModel>,
) -> (r: Option<CosmeticFilterCache>)
    requires
        pos <= tokens@.len(),
    ensures
        match r {
            Some(cache) => with_cosmetic_part(before, rest(tokens@, pos as int)) == Some(
                DataModel {
                    generic: strings(cache.generic@),
                    specific: cosmetic_rules(cache.specific@),
                    scriptlets: cache.scriptlets.scriptlets.pairs(),
                    ..before
                },
            ),
            None => with_cosmetic_part(before, rest(tokens@, pos as int)) is None,
        },
{
    match read_strings(tokens, pos) {
        Some((generic, p1)) => match read_cosmetics(tokens, p1) {
            Some((specific, p2)) => match read_scripts(tokens, p2) {
                Some((scriptlets, p3)) => if p3 == tokens.len() {
                    Some(
                        CosmeticFilterCache {
                            generic,
                            specific,
                            scriptlets: ScriptletResourceStorage { scriptlets },
                        },
                    )
                } else {
                    None
                },
                None => None,
            },
            None => None,
        },
        None => None,
    }
}

/// Reads the tokens of the raw format.
fn read_raw(tokens: &Vec<Token>) -> (r: Option<(Blocker, CosmeticFilterCache)>)
    ensures
        match r {
            Some((blocker, cache)) => {
                &&& take_raw(items(tokens@)) == Some(data_of(blocker, cache))
                &&& blocker.tags@.len() == 0
            },
            None => take_raw(items(tokens@)) is None,
        },
{
    if tokens.len() == 0 {
        return None;
    }
    proof {
        lemma_rest(tokens@, 0, 1);
        assert(rest(tokens@, 0) =~= items(tokens@));
    }
    match &tokens[0] {
        Token::Array(12) => {},
        _ => {
            return None;
        },
    }
    let (mut lists, p1) = match fetch_many::<RulesForm>(tokens, 1, 7) {
        Some((lists, next)) => (lists, next),
        None => {
            return None;
        },
    };
    if p1 == tokens.len() {
        return None;
    }
    proof {
        lemma_rest(tokens@, p1 as int, 1);
    }
    let enable_optimizations = match &tokens[p1] {
        Token::Bool(b) => *b,
        _ => {
            return None;
        },
    };
    let (resources, p2) = match read_resources(tokens, p1 + 1) {
        Some((resources, next)) => (resources, next),
        None => {
            return None;
        },
    };
    let ghost all = rule_lists(lists@);
    assert(models::<RulesForm>(lists@) =~= all);
    let generic_hide = pop_list(&mut lists);
    let filters = pop_list(&mut lists);
    let tagged = pop_list(&mut lists);
    let redirects = pop_list(&mut lists);
    let importants = pop_list(&mut lists);
    let exceptions = pop_list(&mut lists);
    let csp = pop_list(&mut lists);
    let blocker = Blocker {
        csp,
        exceptions,
        importants,
        redirects,
        tagged,
        filters,
        generic_hide,
        tags: Vec::new(),
        enable_optimizations,
        resources: RedirectResourceStorage { resources },
    };
    let ghost before = DataModel {
        csp: all[0],
        exceptions: all[1],
        importants: all[2],
        redirects: all[3],
        tagged: all[4],
        filters: all[5],
        generic_hide: all[6],
        enable_optimizations,
        resources: resources.pairs(),
        generic: Seq::empty(),
        specific: Seq::empty(),
        scriptlets: Seq::empty(),
    };
    match read_cosmetic_part(tokens, p2, Ghost(before)) {
        Some(cache) => Some((blocker, cache)),
        None => None,
    }
}

/// Reads the resources of the compressed format, where it says that it holds them.
fn read_answers(tokens: &Vec<Token>, pos: usize, present: bool) -> (r: Option<
    (Directory<RedirectResource>, usize),
>)
    requires
        pos <= tokens@.len(),
    ensures
        match r {
            Some((list, next)) => {
                &&& pos <= next <= tokens@.len()
                &&& take_answers(rest(tokens@, pos as int), present) == Some(
                    (list.pairs(), rest(tokens@, next as int)),
                )
            },
            None => take_answers(rest(tokens@, pos as int), present) is None,
        },
{
    if !present {
        return Some((Directory::new(), pos));
    }
    if pos >= tokens.len() {
        return None;
    }
    proof {
        lemma_rest(tokens@, pos as int, 1);
    }
    match &tokens[pos] {
        Token::Array(1) => read_resources(tokens, pos + 1),
        _ => None,
    }
}

/// Reads what came to the compressed format later.
fn read_later(tokens: &Vec<Token>, pos: usize, Ghost(before): Ghost<DataModel>) -> (r: Option<
    (Vec<NetworkFilter>, CosmeticFilterCache),
>)
    requires
        pos <= tokens@.len(),
        before.generic_hide.len() == 0,
        before.generic.len() == 0,
        before.specific.len() == 0,
        before.scriptlets.len() == 0,
    ensures
        match r {
            Some((generic_hide, cache)) => take_later(before, rest(tokens@, pos as int)) == Some(
                DataModel {
                    generic_hide: rules(generic_hide@),
                    generic: strings(cache.generic@),
                    specific: cosmetic_rules(cache.specific@),
                    scriptlets: cache.scriptlets.scriptlets.pairs(),
                    ..before
                },
            ),
            None => take_later(before, rest(tokens@, pos as int)) is None,
        },
{
    if pos == tokens.len() {
        let generic_hide: Vec<NetworkFilter> = Vec::new();
        let generic: Vec<String> = Vec::new();
        let specific: Vec<CosmeticFilter> = Vec::new();
        let scriptlets: Directory<String> = Directory::new();
        proof {
            assert(rules(generic_hide@) =~= before.generic_hide);
            assert(strings(generic@) =~= before.generic);
            assert(cosmetic_rules(specific@) =~= before.specific);
            assert(scriptlets.pairs() =~= before.scriptlets);
        }
        return Some(
            (
                generic_hide,
                CosmeticFilterCache {
                    generic,
                    specific,
                    scriptlets: ScriptletResourceStorage { scriptlets },
                },
            ),
        );
    }
    proof {
        lemma_rest(tokens@, pos as int, 1);
    }
    match &tokens[pos] {
        Token::Array(4) => {},
        _ => {
            return None;
        },
    }
    match read_rules(tokens, pos + 1) {
        Some((generic_hide, next)) => match read_cosmetic_part(
            tokens,
            next,
            Ghost(DataModel { generic_hide: rules(generic_hide@), ..before }),
        ) {
            Some(cache) => Some((generic_hide, cache)),
            None => None,
        },
        None => None,
    }
}

/// The second of four switches.
fn read_switches(tokens: &Vec<Token>, pos: usize) -> (r: Option<bool>)
    requires
        pos <= tokens@.len(),
    ensures
        ({
            let list = rest(tokens@, pos as int);
            match r {
                Some(b) => {
                    &&& list.len() >= 4
                    &&& list[0] is Bool
                    &&& list[1] == Item::Bool(b)
                    &&& list[2] is Bool
                    &&& list[3] is Bool
                },
                None => list.len() < 4 || !(list[0] is Bool) || !(list[1] is Bool) || !(
                list[2] is Bool) || !(list[3] is Bool),
            }
        }),
{
    if tokens.len() - pos < 4 {
        return None;
    }
    proof {
        lemma_rest(tokens@, pos as int, 4);
    }
    match (&tokens[pos], &tokens[pos + 1], &tokens[pos + 2], &tokens[pos + 3]) {
        (Token::Bool(_), Token::Bool(b), Token::Bool(_), Token::Bool(_)) => Some(*b),
        _ => None,
    }
}

/// Reads the tokens of the compressed format.
fn read_grouped_data(tokens: &Vec<Token>) -> (r: Option<(Blocker, CosmeticFilterCache)>)
    ensures
        match r {
            Some((blocker, cache)) => {
                &&& take_grouped_data(items(tokens@)) == Some(data_of(blocker, cache))
                &&& blocker.tags@.len() == 0
            },
            None => take_grouped_data(items(tokens@)) is None,
        },
{
    if tokens.len() == 0 {
        return None;
    }
    proof {
        lemma_rest(tokens@, 0, 1);
        assert(rest(tokens@, 0) =~= items(tokens@));
    }
    let present = match &tokens[0] {
        Token::Array(11) => false,
        Token::Array(12) => true,
        _ => {
            return None;
        },
    };
    let (mut lists, p1) = match fetch_many::<GroupedForm>(tokens, 1, 6) {
        Some((lists, next)) => (lists, next),
        None => {
            return None;
        },
    };
    let (tagged, p2) = match read_rules(tokens, p1) {
        Some((tagged, next)) => (tagged, next),
        None => {
            return None;
        },
    };
    let enable_optimizations = match read_switches(tokens, p2) {
        Some(b) => b,
        None => {
            return None;
        },
    };
    proof {
        lemma_rest(tokens@, p2 as int, 4);
    }
    let (resources, p3) = match read_answers(tokens, p2 + 4, present) {
        Some((resources, next)) => (resources, next),
        None => {
            return None;
        },
    };
    let ghost all = rule_lists(lists@);
    assert(models::<GroupedForm>(lists@) =~= all);
    let filters = pop_list(&mut lists);
    let _ = pop_list(&mut lists);
    let redirects = pop_list(&mut lists);
    let importants = pop_list(&mut lists);
    let exceptions = pop_list(&mut lists);
    let csp = pop_list(&mut lists);
    let ghost before = DataModel {
        csp: all[0],
        exceptions: all[1],
        importants: all[2],
        redirects: all[3],
        tagged: rules(tagged@),
        filters: all[5],
        generic_hide: Seq::empty(),
        enable_optimizations,
        resources: resources.pairs(),
        generic: Seq::empty(),
        specific: Seq::empty(),
        scriptlets: Seq::empty(),
    };
    match read_later(tokens, p3, Ghost(before)) {
        Some((generic_hide, cache)) => {
            let blocker = Blocker {
                csp,
                exceptions,
                importants,
                redirects,
                tagged,
                filters,
                generic_hide,
                tags: Vec::new(),
                enable_optimizations,
                resources: RedirectResourceStorage { resources },
            };
            Some((blocker, cache))
        },
        None => None,
    }
}

/// Reads an engine from the bytes that were compressed. No tags are enabled in it.
pub fn load_unzipped(data: &[u8]) -> (r: Option<(Blocker, CosmeticFilterCache)>)
    ensures
        match r {
            Some((blocker, cache)) => {
                &&& grouped_in(data@) == Some(data_of(blocker, cache))
                &&& blocker.tags@.len() == 0
            },
            None => grouped_in(data@) is None,
        },
{
    match read_tokens(data) {
        Some(tokens) => read_grouped_data(&tokens),
        None => None,
    }
}

/// Reads an engine in either format. No tags are enabled in it.
pub fn load(bytes: &[u8]) -> (r: Option<(Blocker, CosmeticFilterCache)>)
    ensures
        match r {
            Some((blocker, cache)) => {
                &&& saved_in(bytes@) == Some(data_of(blocker, cache))
                &&& blocker.tags@.len() == 0
            },
            None => saved_in(bytes@) is None,
        },
{
    let n: usize = bytes.len();
    if n >= 4 && bytes[0] == 0xd1 && bytes[1] == 0xd9 && bytes[2] == 0x3a && bytes[3] == 0xaf {
        assert(bytes@.subrange(0, 4) =~= raw_mark());
        if n == 4 || bytes[4] != 0 {
            return None;
        }
        let tail = slice_subrange(bytes, 5, n);
        assert(tail@ =~= bytes@.skip(5));
        return match read_tokens(tail) {
            Some(tokens) => read_raw(&tokens),
            None => None,
        };
    }
    proof {
        if raw_mark().is_prefix_of(bytes@) {
            let front = bytes@.subrange(0, 4);
            assert(front[0] == 0xd1 && front[1] == 0xd9 && front[2] == 0x3a && front[3] == 0xaf);
        }
    }
    if n >= 2 && bytes[0] == 0x1f && bytes[1] == 0x8b {
        assert(bytes@.subrange(0, 2) =~= gzip_mark());
        return match gunzip(bytes) {
            Some(data) => load_unzipped(data.as_slice()),
            None => None,
        };
    }
    proof {
        if gzip_mark().is_prefix_of(bytes@) {
            let front = bytes@.subrange(0, 2);
            assert(front[0] == 0x1f && front[1] == 0x8b);
        }
    }
    None
}

} // verus!

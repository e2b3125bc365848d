//! The cosmetic side of the engine: what to hide, restyle and inject on a page.

use vstd::prelude::*;

use crate::filters::cosmetic::{
    cosmetic_rules, find_selector_key, selector_key, CosmeticAction, CosmeticFilter,
    CosmeticRule, HostKey,
};
use crate::filters::network::same_opt;
use crate::resources::{
    resource_models, scriptlet_call, scriptlets_of, scriptlets_with, AddResourceError, Resource,
    ScriptletResourceStorage,
};
use crate::seqs::{lemma_filter_map_take, lemma_filter_take};
use crate::text::{has_string, push_unique, strings, unique};

verus! {

/// What to do on a page.
#[derive(Debug, PartialEq, Eq)]
pub struct UrlSpecificResources {
    /// The selectors of elements to hide, each once.
    pub hide_selectors: Vec<String>,
    /// The selectors of elements to restyle, each with the style.
    pub style_selectors: Vec<(String, String)>,
    /// The selectors that are not to be hidden on the page, each once.
    pub exceptions: Vec<String>,
    /// The script to inject.
    pub injected_script: String,
    /// Whether generic rules are not to be applied to the page.
    pub generichide: bool,
}

/// What to do on a page.
#[verifier::ext_equal]
pub struct PageModel {
    pub hide_selectors: Seq<Seq<char>>,
    pub style_selectors: Seq<(Seq<char>, Seq<char>)>,
    pub exceptions: Seq<Seq<char>>,
    pub injected_script: Seq<char>,
    pub generichide: bool,
}

/// The texts of a list of pairs.
pub open spec fn string_pairs(list: Seq<(String, String)>) -> Seq<(Seq<char>, Seq<char>)> {
    list.map_values(|p: (String, String)| (p.0@, p.1@))
}

impl View for UrlSpecificResources {
    type V = PageModel;

    open spec fn view(&self) -> PageModel {
        PageModel {
            hide_selectors: strings(self.hide_selectors@),
            style_selectors: string_pairs(self.style_selectors@),
            exceptions: strings(self.exceptions@),
            injected_script: self.injected_script@,
            generichide: self.generichide,
        }
    }
}

/// Nothing is to be done.
pub open spec fn nothing_to_do() -> PageModel {
    PageModel {
        hide_selectors: Seq::empty(),
        style_selectors: Seq::empty(),
        exceptions: Seq::empty(),
        injected_script: Seq::empty(),
        generichide: false,
    }
}

impl UrlSpecificResources {
    /// Nothing to do.
    pub fn empty() -> (r: UrlSpecificResources)
        ensures
            r@ == nothing_to_do(),
    {
        let r = UrlSpecificResources {
            hide_selectors: Vec::new(),
            style_selectors: Vec::new(),
            exceptions: Vec::new(),
            injected_script: String::new(),
            generichide: false,
        };
        assert(r@ =~= nothing_to_do());
        r
    }
}

/// The cosmetic rules and the scripts that they inject.
#[verifier::ext_equal]
pub struct CosmeticModel {
    /// The selectors that are hidden on every host, each once.
    pub generic: Seq<Seq<char>>,
    /// The rules that speak of hosts.
    pub specific: Seq<CosmeticRule>,
    /// The scripts, by name.
    pub scriptlets: Map<Seq<char>, Seq<char>>,
}

/// The selector of a rule that hides elements on every host.
pub open spec fn generic_selector(rule: CosmeticRule) -> Option<Seq<char>> {
    if rule.is_generic() {
        Some(rule.selector)
    } else {
        None
    }
}

/// The rule speaks of a host.
pub open spec fn is_specific(rule: CosmeticRule) -> bool {
    rule.hosts.len() > 0 || rule.not_hosts.len() > 0
}

/// The rules of a list; no scripts.
pub open spec fn cosmetic_of(rules: Seq<CosmeticRule>) -> CosmeticModel {
    CosmeticModel {
        generic: unique(rules.filter_map(|r: CosmeticRule| generic_selector(r))),
        specific: rules.filter(|r: CosmeticRule| is_specific(r)),
        scriptlets: Map::empty(),
    }
}

/// Some rule takes an action on a selector back on the host.
pub open spec fn taken_back(
    rules: Seq<CosmeticRule>,
    action: CosmeticAction,
    selector: Seq<char>,
    host: Seq<char>,
) -> bool {
    exists|i: int|
        0 <= i < rules.len() && (#[trigger] rules[i]).takes_back_on(host) && rules[i].action
            == action && rules[i].selector == selector
}

/// The rule performs its action on the host, and none takes it back.
pub open spec fn in_effect(rules: Seq<CosmeticRule>, rule: CosmeticRule, host: Seq<char>) -> bool {
    rule.acts_on(host) && !taken_back(rules, rule.action, rule.selector, host)
}

/// The selector needs an element to have neither a class nor an id that can be
/// looked up.
pub open spec fn is_unkeyed(selector: Seq<char>) -> bool {
    selector_key(selector, '.') is None && selector_key(selector, '#') is None
}

/// A script that fails alone.
pub open spec fn guarded(script: Seq<char>) -> Seq<char> {
    "try {\n"@ + script + "\n} catch ( e ) { }\n"@
}

/// The scripts that calls stand for, each guarded; a call of an unknown script
/// stands for none.
pub open spec fn injected(map: Map<Seq<char>, Seq<char>>, calls: Seq<Seq<char>>) -> Seq<char>
    decreases calls.len(),
{
    if calls.len() == 0 {
        Seq::empty()
    } else {
        match scriptlet_call(map, calls.last()) {
            Some(script) => injected(map, calls.drop_last()) + guarded(script),
            None => injected(map, calls.drop_last()),
        }
    }
}

/// The generic selector needs an element to have a name, and is not excepted.
pub open spec fn needs_name(mark: char, name: Seq<char>, exceptions: Seq<Seq<char>>) -> spec_fn(
    Seq<char>,
) -> bool {
    |s: Seq<char>| selector_key(s, mark) == Some(name) && !exceptions.contains(s)
}

impl CosmeticModel {
    /// The selectors that are not to be hidden on the host.
    pub open spec fn exceptions(self, host: Seq<char>) -> Seq<Seq<char>> {
        unique(self.specific.filter_map(|r: CosmeticRule| excepted_selector(r, host)))
    }

    /// The selectors that rules for the host hide there.
    pub open spec fn specific_hides(self, host: Seq<char>) -> Seq<Seq<char>> {
        self.specific.filter_map(|r: CosmeticRule| hidden_selector(self.specific, r, host))
    }

    /// The generic selectors that are not looked up by a class or an id, but for
    /// those that are taken back on the host.
    pub open spec fn generic_hides(self, host: Seq<char>) -> Seq<Seq<char>> {
        self.generic.filter(
            |s: Seq<char>|
                is_unkeyed(s) && !taken_back(self.specific, CosmeticAction::Hide, s, host),
        )
    }

    /// The styles that rules give on the host.
    pub open spec fn styles(self, host: Seq<char>) -> Seq<(Seq<char>, Seq<char>)> {
        self.specific.filter_map(|r: CosmeticRule| styled_selector(self.specific, r, host))
    }

    /// The calls of scripts on the host, each once.
    pub open spec fn calls(self, host: Seq<char>) -> Seq<Seq<char>> {
        unique(self.specific.filter_map(|r: CosmeticRule| script_call(self.specific, r, host)))
    }

    /// What to do on a page of the host.
    pub open spec fn page(self, host: Seq<char>, generichide: bool) -> PageModel {
        PageModel {
            hide_selectors: unique(
                if generichide {
                    self.specific_hides(host)
                } else {
                    self.specific_hides(host) + self.generic_hides(host)
                },
            ),
            style_selectors: self.styles(host),
            exceptions: self.exceptions(host),
            injected_script: injected(self.scriptlets, self.calls(host)),
            generichide,
        }
    }

    /// The generic selectors that need an element to have one of the names, but
    /// for the exceptions.
    pub open spec fn keyed(
        self,
        mark: char,
        names: Seq<Seq<char>>,
        exceptions: Seq<Seq<char>>,
    ) -> Seq<Seq<char>>
        decreases names.len(),
    {
        if names.len() == 0 {
            Seq::empty()
        } else {
            self.keyed(mark, names.drop_last(), exceptions) + self.generic.filter(
                needs_name(mark, names.last(), exceptions),
            )
        }
    }
}

/// The selector that a rule takes the hiding of back, where it does so.
pub open spec fn excepted_selector(rule: CosmeticRule, host: Seq<char>) -> Option<Seq<char>> {
    if rule.action is Hide && rule.takes_back_on(host) {
        Some(rule.selector)
    } else {
        None
    }
}

/// The selector that a rule hides on the host, where it does so.
pub open spec fn hidden_selector(
    rules: Seq<CosmeticRule>,
    rule: CosmeticRule,
    host: Seq<char>,
) -> Option<Seq<char>> {
    if rule.action is Hide && in_effect(rules, rule, host) {
        Some(rule.selector)
    } else {
        None
    }
}

/// The selector that a rule restyles on the host and its style, where it does so.
pub open spec fn styled_selector(
    rules: Seq<CosmeticRule>,
    rule: CosmeticRule,
    host: Seq<char>,
) -> Option<(Seq<char>, Seq<char>)> {
    match rule.action {
        CosmeticAction::Style(style) => if in_effect(rules, rule, host) {
            Some((rule.selector, style))
        } else {
            None
        },
        _ => None,
    }
}

/// The script that a rule calls on the host, where it does so.
pub open spec fn script_call(
    rules: Seq<CosmeticRule>,
    rule: CosmeticRule,
    host: Seq<char>,
) -> Option<Seq<char>> {
    if rule.action is Script && in_effect(rules, rule, host) {
        Some(rule.selector)
    } else {
        None
    }
}

/// Whether two rules perform the same action on the same elements.
fn same_effect(a: &CosmeticFilter, b: &CosmeticFilter) -> (r: bool)
    ensures
        r == (a@.action == b@.action && a@.selector == b@.selector),
{
    a.selector == b.selector && same_opt(&a.style, &b.style) && (
    a.style.is_some() || a.script == b.script)
}

/// Whether a rule performs its action on the host and none takes it back.
fn is_in_effect(rules: &Vec<CosmeticFilter>, rule: &CosmeticFilter, host: &HostKey) -> (r: bool)
    requires
        host.wf(),
    ensures
        r == in_effect(cosmetic_rules(rules@), rule@, host.name()),
{
    if !rule.acts(host) {
        return false;
    }
    let ghost all = cosmetic_rules(rules@);
    let mut i: usize = 0;
    while i < rules.len()
        invariant
            i <= rules@.len(),
            host.wf(),
            all == cosmetic_rules(rules@),
            rule@.acts_on(host.name()),
            forall|k: int|
                0 <= k < i ==> !((#[trigger] all[k]).takes_back_on(host.name()) && all[k].action
                    == rule@.action && all[k].selector == rule@.selector),
        decreases rules@.len() - i,
    {
        assert(all[i as int] == rules@[i as int]@);
        if same_effect(&rules[i], rule) && rules[i].takes_back(host) {
            return false;
        }
        i += 1;
    }
    true
}

/// The cosmetic rules and the scripts that they inject.
#[derive(Debug)]
pub struct CosmeticFilterCache {
    pub generic: Vec<String>,
    pub specific: Vec<CosmeticFilter>,
    pub scriptlets: ScriptletResourceStorage,
}

impl View for CosmeticFilterCache {
    type V = CosmeticModel;

    open spec fn view(&self) -> CosmeticModel {
        CosmeticModel {
            generic: strings(self.generic@),
            specific: cosmetic_rules(self.specific@),
            scriptlets: self.scriptlets@,
        }
    }
}

impl CosmeticFilterCache {
    /// No rules and no scripts.
    pub fn new() -> (r: CosmeticFilterCache)
        ensures
            r@ == cosmetic_of(Seq::empty()),
    {
        CosmeticFilterCache::from_rules(Vec::new())
    }

    /// Stores the rules of a list.
    pub fn from_rules(rules: Vec<CosmeticFilter>) -> (r: CosmeticFilterCache)
        ensures
            r@ == cosmetic_of(cosmetic_rules(rules@)),
    {
        let ghost all = cosmetic_rules(rules@);
        let ghost f = |r: CosmeticRule| generic_selector(r);
        let ghost p = |r: CosmeticRule| is_specific(r);
        let mut generic: Vec<String> = Vec::new();
        let mut specific: Vec<CosmeticFilter> = Vec::new();
        let mut i: usize = 0;
        proof {
            reveal(Seq::filter);
            assert(strings(generic@) =~= unique(all.take(0).filter_map(f)));
            assert(cosmetic_rules(specific@) =~= all.take(0).filter(p));
        }
        while i < rules.len()
            invariant
                i <= rules@.len(),
                all == cosmetic_rules(rules@),
                f == (|r: CosmeticRule| generic_selector(r)),
                p == (|r: CosmeticRule| is_specific(r)),
                strings(generic@) == unique(all.take(i as int).filter_map(f)),
                cosmetic_rules(specific@) == all.take(i as int).filter(p),
            decreases rules@.len() - i,
        {
            let rule = &rules[i];
            proof {
                assert(all[i as int] == rule@);
                lemma_filter_map_take(all, i as int, f);
                lemma_filter_take(all, i as int, p);
            }
            if rule.generic() {
                let ghost list = all.take(i as int).filter_map(f);
                push_unique(&mut generic, rule.selector.clone());
                assert(list.push(rule@.selector).drop_last() =~= list);
            }
            if rule.hosts.len() > 0 || rule.not_hosts.len() > 0 {
                let ghost before = cosmetic_rules(specific@);
                let copy = rule.copy();
                specific.push(copy);
                assert(cosmetic_rules(specific@) =~= before.push(copy@));
            }
            i += 1;
        }
        assert(all.take(i as int) =~= all);
        CosmeticFilterCache { generic, specific, scriptlets: ScriptletResourceStorage::new() }
    }

    /// The selectors that are not to be hidden on the host.
    fn collect_exceptions(&self, host: &HostKey) -> (r: Vec<String>)
        requires
            host.wf(),
        ensures
            strings(r@) == self@.exceptions(host.name()),
    {
        let ghost all = self@.specific;
        let ghost f = |r: CosmeticRule| excepted_selector(r, host.name());
        let mut r: Vec<String> = Vec::new();
        let mut i: usize = 0;
        assert(strings(r@) =~= unique(all.take(0).filter_map(f)));
        while i < self.specific.len()
            invariant
                i <= self.specific@.len(),
                host.wf(),
                all == self@.specific,
                f == (|r: CosmeticRule| excepted_selector(r, host.name())),
                strings(r@) == unique(all.take(i as int).filter_map(f)),
            decreases self.specific@.len() - i,
        {
            let rule = &self.specific[i];
            proof {
                assert(all[i as int] == rule@);
                lemma_filter_map_take(all, i as int, f);
            }
            if rule.style.is_none() && !rule.script && rule.takes_back(host) {
                let ghost list = all.take(i as int).filter_map(f);
                push_unique(&mut r, rule.selector.clone());
                assert(list.push(rule@.selector).drop_last() =~= list);
            }
            i += 1;
        }
        assert(all.take(i as int) =~= all);
        r
    }

    /// The selectors that rules for the host hide there, each once.
    fn collect_specific_hides(&self, host: &HostKey) -> (r: Vec<String>)
        requires
            host.wf(),
        ensures
            strings(r@) == unique(self@.specific_hides(host.name())),
    {
        let ghost all = self@.specific;
        let ghost f = |r: CosmeticRule| hidden_selector(self@.specific, r, host.name());
        let mut r: Vec<String> = Vec::new();
        let mut i: usize = 0;
        assert(strings(r@) =~= unique(all.take(0).filter_map(f)));
        while i < self.specific.len()
            invariant
                i <= self.specific@.len(),
                host.wf(),
                all == self@.specific,
                f == (|r: CosmeticRule| hidden_selector(self@.specific, r, host.name())),
                strings(r@) == unique(all.take(i as int).filter_map(f)),
            decreases self.specific@.len() - i,
        {
            let rule = &self.specific[i];
            proof {
                assert(all[i as int] == rule@);
                lemma_filter_map_take(all, i as int, f);
            }
            if rule.style.is_none() && !rule.script && is_in_effect(&self.specific, rule, host) {
                let ghost list = all.take(i as int).filter_map(f);
                push_unique(&mut r, rule.selector.clone());
                assert(list.push(rule@.selector).drop_last() =~= list);
            }
            i += 1;
        }
        assert(all.take(i as int) =~= all);
        r
    }

    /// Whether the hiding of a selector is taken back on the host.
    fn is_excepted(&self, selector: &String, host: &HostKey) -> (r: bool)
        requires
            host.wf(),
        ensures
            r == taken_back(self@.specific, CosmeticAction::Hide, selector@, host.name()),
    {
        let ghost all = self@.specific;
        let mut i: usize = 0;
        while i < self.specific.len()
            invariant
                i <= self.specific@.len(),
                host.wf(),
                all == self@.specific,
                forall|k: int|
                    0 <= k < i ==> !((#[trigger] all[k]).takes_back_on(host.name())
                        && all[k].action == CosmeticAction::Hide && all[k].selector == selector@),
            decreases self.specific@.len() - i,
        {
            let rule = &self.specific[i];
            assert(all[i as int] == rule@);
            if rule.style.is_none() && !rule.script && rule.selector == *selector
                && rule.takes_back(host) {
                return true;
            }
            i += 1;
        }
        false
    }

    /// Adds the generic selectors that are not looked up by a class or an id.
    fn add_generic_hides(&self, r: &mut Vec<String>, host: &HostKey, Ghost(a): Ghost<Seq<Seq<char>>>)
        requires
            host.wf(),
            strings(old(r)@) == unique(a),
        ensures
            strings(final(r)@) == unique(a + self@.generic_hides(host.name())),
    {
        let ghost all = self@.generic;
        let ghost p = |s: Seq<char>|
            is_unkeyed(s) && !taken_back(self@.specific, CosmeticAction::Hide, s, host.name());
        let mut i: usize = 0;
        proof {
            reveal(Seq::filter);
            assert(a + all.take(0).filter(p) =~= a);
        }
        while i < self.generic.len()
            invariant
                i <= self.generic@.len(),
                host.wf(),
                all == self@.generic,
                p == (|s: Seq<char>|
                    is_unkeyed(s) && !taken_back(
                        self@.specific,
                        CosmeticAction::Hide,
                        s,
                        host.name(),
                    )),
                strings(r@) == unique(a + all.take(i as int).filter(p)),
            decreases self.generic@.len() - i,
        {
            let selector = &self.generic[i];
            proof {
                assert(all[i as int] == selector@);
                lemma_filter_take(all, i as int, p);
            }
            if find_selector_key(selector.as_str(), '.').is_none() && find_selector_key(
                selector.as_str(),
                '#',
            ).is_none() && !self.is_excepted(selector, host) {
                let ghost list = all.take(i as int).filter(p);
                push_unique(r, selector.clone());
                assert(a + list.push(selector@) =~= (a + list).push(selector@));
                assert((a + list).push(selector@).drop_last() =~= a + list);
            }
            i += 1;
        }
        assert(all.take(i as int) =~= all);
    }

    /// The styles that rules give on the host.
    fn collect_styles(&self, host: &HostKey) -> (r: Vec<(String, String)>)
        requires
            host.wf(),
        ensures
            string_pairs(r@) == self@.styles(host.name()),
    {
        let ghost all = self@.specific;
        let ghost f = |r: CosmeticRule| styled_selector(self@.specific, r, host.name());
        let mut r: Vec<(String, String)> = Vec::new();
        let mut i: usize = 0;
        assert(string_pairs(r@) =~= all.take(0).filter_map(f));
        while i < self.specific.len()
            invariant
                i <= self.specific@.len(),
                host.wf(),
                all == self@.specific,
                f == (|r: CosmeticRule| styled_selector(self@.specific, r, host.name())),
                string_pairs(r@) == all.take(i as int).filter_map(f),
            decreases self.specific@.len() - i,
        {
            let rule = &self.specific[i];
            proof {
                assert(all[i as int] == rule@);
                lemma_filter_map_take(all, i as int, f);
            }
            match &rule.style {
                Some(style) => if is_in_effect(&self.specific, rule, host) {
                    let ghost before = string_pairs(r@);
                    r.push((rule.selector.clone(), style.clone()));
                    assert(string_pairs(r@) =~= before.push((rule@.selector, style@)));
                },
                None => {},
            }
            i += 1;
        }
        assert(all.take(i as int) =~= all);
        r
    }

    /// The calls of scripts on the host, each once.
    fn collect_calls(&self, host: &HostKey) -> (r: Vec<String>)
        requires
            host.wf(),
        ensures
            strings(r@) == self@.calls(host.name()),
    {
        let ghost all = self@.specific;
        let ghost f = |r: CosmeticRule| script_call(self@.specific, r, host.name());
        let mut r: Vec<String> = Vec::new();
        let mut i: usize = 0;
        assert(strings(r@) =~= unique(all.take(0).filter_map(f)));
        while i < self.specific.len()
            invariant
                i <= self.specific@.len(),
                host.wf(),
                all == self@.specific,
                f == (|r: CosmeticRule| script_call(self@.specific, r, host.name())),
                strings(r@) == unique(all.take(i as int).filter_map(f)),
            decreases self.specific@.len() - i,
        {
            let rule = &self.specific[i];
            proof {
                assert(all[i as int] == rule@);
                lemma_filter_map_take(all, i as int, f);
            }
            if rule.style.is_none() && rule.script && is_in_effect(&self.specific, rule, host) {
                let ghost list = all.take(i as int).filter_map(f);
                push_unique(&mut r, rule.selector.clone());
                assert(list.push(rule@.selector).drop_last() =~= list);
            }
            i += 1;
        }
        assert(all.take(i as int) =~= all);
        r
    }

    /// The scripts that calls stand for, each guarded.
    fn inject(&self, calls: &Vec<String>) -> (r: String)
        ensures
            r@ == injected(self@.scriptlets, strings(calls@)),
    {
        let ghost all = strings(calls@);
        let mut r: String = String::new();
        let mut i: usize = 0;
        while i < calls.len()
            invariant
                i <= calls@.len(),
                all == strings(calls@),
                r@ == injected(self@.scriptlets, all.take(i as int)),
            decreases calls@.len() - i,
        {
            proof {
                assert(all.take(i + 1).drop_last() =~= all.take(i as int));
                assert(all.take(i + 1).last() == calls@[i as int]@);
            }
            match self.scriptlets.get_scriptlet(calls[i].as_str()) {
                Some(script) => {
                    let ghost before = r@;
                    r = r.concat("try {\n").concat(script.as_str()).concat(
                        "\n} catch ( e ) { }\n",
                    );
                    assert(r@ =~= before + guarded(script@));
                },
                None => {},
            }
            i += 1;
        }
        assert(all.take(i as int) =~= all);
        r
    }

    /// What to do on a page of a host, where `generichide` says whether generic
    /// rules are not to be applied to it.
    pub fn hostname_cosmetic_resources(&self, hostname: &[char], generichide: bool) -> (r:
        UrlSpecificResources)
        ensures
            r@ == self@.page(hostname@, generichide),
    {
        let host = HostKey::new(hostname);
        let exceptions = self.collect_exceptions(&host);
        let mut hide_selectors = self.collect_specific_hides(&host);
        if !generichide {
            self.add_generic_hides(
                &mut hide_selectors,
                &host,
                Ghost(self@.specific_hides(host.name())),
            );
        }
        let style_selectors = self.collect_styles(&host);
        let injected_script = self.inject(&self.collect_calls(&host));
        UrlSpecificResources {
            hide_selectors,
            style_selectors,
            exceptions,
            injected_script,
            generichide,
        }
    }

    /// Adds the generic selectors that need an element to have a name.
    fn add_keyed(&self, r: &mut Vec<String>, mark: char, name: &String, exceptions: &Vec<String>)
        ensures
            strings(final(r)@) == strings(old(r)@) + self@.generic.filter(
                needs_name(mark, name@, strings(exceptions@)),
            ),
    {
        let ghost all = self@.generic;
        let ghost p = needs_name(mark, name@, strings(exceptions@));
        let ghost a = strings(r@);
        let mut i: usize = 0;
        proof {
            reveal(Seq::filter);
            assert(a + all.take(0).filter(p) =~= a);
        }
        while i < self.generic.len()
            invariant
                i <= self.generic@.len(),
                all == self@.generic,
                p == needs_name(mark, name@, strings(exceptions@)),
                strings(r@) == a + all.take(i as int).filter(p),
            decreases self.generic@.len() - i,
        {
            let selector = &self.generic[i];
            proof {
                assert(all[i as int] == selector@);
                lemma_filter_take(all, i as int, p);
            }
            let found = match find_selector_key(selector.as_str(), mark) {
                Some(key) => key == *name,
                None => false,
            };
            if found && !has_string(exceptions, selector.as_str()) {
                let ghost before = strings(r@);
                r.push(selector.clone());
                assert(strings(r@) =~= before.push(selector@));
                assert(a + all.take(i as int).filter(p).push(selector@) =~= before.push(selector@));
            }
            i += 1;
        }
        assert(all.take(i as int) =~= all);
    }

    /// Adds the generic selectors that need an element to have one of the names.
    fn add_all_keyed(
        &self,
        r: &mut Vec<String>,
        mark: char,
        names: &[String],
        exceptions: &Vec<String>,
    )
        ensures
            strings(final(r)@) == strings(old(r)@) + self@.keyed(
                mark,
                strings(names@),
                strings(exceptions@),
            ),
    {
        let ghost all = strings(names@);
        let ghost a = strings(r@);
        let mut i: usize = 0;
        assert(a + self@.keyed(mark, all.take(0), strings(exceptions@)) =~= a);
        while i < names.len()
            invariant
                i <= names@.len(),
                all == strings(names@),
                strings(r@) == a + self@.keyed(mark, all.take(i as int), strings(exceptions@)),
            decreases names@.len() - i,
        {
            let ghost before = strings(r@);
            self.add_keyed(r, mark, &names[i], exceptions);
            proof {
                assert(all.take(i + 1).drop_last() =~= all.take(i as int));
                assert(all.take(i + 1).last() == names@[i as int]@);
                assert(strings(r@) =~= a + self@.keyed(mark, all.take(i + 1), strings(exceptions@)));
            }
            i += 1;
        }
        assert(all.take(i as int) =~= all);
    }

    /// The generic selectors that need an element to have one of the classes, then
    /// those that need one of the ids, but for the exceptions.
    pub fn hidden_class_id_selectors(
        &self,
        classes: &[String],
        ids: &[String],
        exceptions: &Vec<String>,
    ) -> (r: Vec<String>)
        ensures
            strings(r@) == self@.keyed('.', strings(classes@), strings(exceptions@)) + self@.keyed(
                '#',
                strings(ids@),
                strings(exceptions@),
            ),
    {
        let mut r: Vec<String> = Vec::new();
        self.add_all_keyed(&mut r, '.', classes, exceptions);
        assert(strings(r@) =~= self@.keyed('.', strings(classes@), strings(exceptions@)));
        self.add_all_keyed(&mut r, '#', ids, exceptions);
        r
    }

    /// Keeps the scripts of the given resources and no others.
    pub fn use_resources(&mut self, resources: &[Resource])
        ensures
            final(self)@ == (CosmeticModel {
                scriptlets: scriptlets_of(resource_models(resources@)),
                ..old(self)@
            }),
    {
        self.scriptlets = ScriptletResourceStorage::from_resources(resources);
    }

    /// Adds the script of a resource.
    pub fn add_resource(&mut self, resource: &Resource) -> (r: Result<(), AddResourceError>)
        ensures
            final(self)@ == (CosmeticModel {
                scriptlets: scriptlets_with(old(self)@.scriptlets, resource@),
                ..old(self)@
            }),
            match r {
                Ok(_) => !resource@.is_scriptlet() || resource@.flaw() is None,
                Err(e) => resource@.is_scriptlet() && resource@.flaw() == Some(e),
            },
    {
        self.scriptlets.add_resource(resource)
    }
}

} // verus!

//! The network side of the engine: which requests are blocked, and by what.

use vstd::prelude::*;

use crate::filters::network::{rules, same_opt, same_texts, FilterMask, NetworkFilter, NetworkRule};
use crate::optimizer::{held_by, holds, store, stored};
use crate::request::{Request, RequestModel, RequestType};
use crate::resources::{
    redirects_of, redirects_with, resource_models, AddResourceError, RedirectModel,
    RedirectResource, RedirectResourceStorage, Resource,
};
use crate::seqs::{lemma_contains_pushed, lemma_filter_map_take, lemma_filter_take};
use crate::text::{
    has_string, has_text, join, join_strings, lemma_unique, opt_text, push_unique, strings,
    strs, texts, unique,
};

verus! {

/// Whether rule lists are compressed.
#[derive(Clone, Copy, Debug, PartialEq, Eq, Structural)]
pub struct BlockerOptions {
    pub enable_optimizations: bool,
}

/// Why an engine is not written or not read.
#[derive(Clone, Copy, Debug, PartialEq, Eq, Structural)]
pub enum BlockerError {
    SerializationError,
    DeserializationError,
}

/// What a request is answered with in place of the resource that it asks for.
#[derive(Debug, PartialEq, Eq)]
pub enum Redirection {
    /// A data address.
    Resource(String),
}

/// What becomes of a request.
#[derive(Debug, PartialEq, Eq)]
pub struct BlockerResult {
    /// Whether the request is to be blocked.
    pub matched: bool,
    /// Whether an important rule blocks it.
    pub important: bool,
    /// What to answer with.
    pub redirect: Option<Redirection>,
    /// The exception that lets the request through.
    pub exception: Option<String>,
    /// The rule that applies to the request.
    pub filter: Option<String>,
    /// Why the request could not be checked.
    pub error: Option<String>,
}

/// What becomes of a request.
#[verifier::ext_equal]
pub struct Verdict {
    pub matched: bool,
    pub important: bool,
    pub redirect: Option<Seq<char>>,
    pub exception: Option<Seq<char>>,
    pub filter: Option<Seq<char>>,
    pub error: Option<Seq<char>>,
}

impl View for BlockerResult {
    type V = Verdict;

    open spec fn view(&self) -> Verdict {
        Verdict {
            matched: self.matched,
            important: self.important,
            redirect: match self.redirect {
                Some(Redirection::Resource(data)) => Some(data@),
                None => None,
            },
            exception: opt_text(self.exception),
            filter: opt_text(self.filter),
            error: opt_text(self.error),
        }
    }
}

/// Nothing is known against the request.
pub open spec fn no_verdict() -> Verdict {
    Verdict {
        matched: false,
        important: false,
        redirect: None,
        exception: None,
        filter: None,
        error: None,
    }
}

impl Default for BlockerResult {
    fn default() -> (r: BlockerResult)
        ensures
            r@ == no_verdict(),
    {
        BlockerResult {
            matched: false,
            important: false,
            redirect: None,
            exception: None,
            filter: None,
            error: None,
        }
    }
}

/// What a rule is stored for.
#[derive(Clone, Copy, Debug, PartialEq, Eq, Structural)]
pub enum Slot {
    Csp,
    GenericHide,
    Exception,
    Important,
    Tagged,
    Plain,
    /// Nothing but a redirection.
    Redirect,
}

/// What a rule is stored for.
pub open spec fn slot_of(rule: NetworkRule) -> Slot {
    if rule.mask.csp {
        Slot::Csp
    } else if rule.mask.generic_hide {
        Slot::GenericHide
    } else if rule.mask.redirect_only {
        Slot::Redirect
    } else if rule.mask.exception {
        Slot::Exception
    } else if rule.mask.important {
        Slot::Important
    } else if rule.tag is Some {
        Slot::Tagged
    } else {
        Slot::Plain
    }
}

/// A rule without its line.
pub open spec fn without_line(rule: NetworkRule) -> NetworkRule {
    NetworkRule { raw_line: None, ..rule }
}

/// A rule takes another back: but for the option that says so they are equal.
pub open spec fn cancels(bad: NetworkRule, rule: NetworkRule) -> bool {
    &&& bad.mask.bad_filter
    &&& without_line(
        NetworkRule { mask: FilterMask { bad_filter: false, ..bad.mask }, ..bad },
    ) == without_line(rule)
}

/// The rules of a list that take others back.
pub open spec fn bad_rules(all: Seq<NetworkRule>) -> Seq<NetworkRule> {
    all.filter(|r: NetworkRule| r.mask.bad_filter)
}

/// A rule takes no other back, and none of `bad` takes it back.
pub open spec fn kept(bad: Seq<NetworkRule>, rule: NetworkRule) -> bool {
    &&& !rule.mask.bad_filter
    &&& forall|i: int| 0 <= i < bad.len() ==> !cancels(#[trigger] bad[i], rule)
}

/// Whether a rule is kept and stored for a purpose.
pub open spec fn in_slot(bad: Seq<NetworkRule>, slot: Slot) -> spec_fn(NetworkRule) -> bool {
    |r: NetworkRule| kept(bad, r) && slot_of(r) == slot
}

/// Whether a rule is kept and names a resource to answer with.
pub open spec fn redirecting(bad: Seq<NetworkRule>) -> spec_fn(NetworkRule) -> bool {
    |r: NetworkRule| kept(bad, r) && r.redirect is Some
}

/// The rules of a list that are stored for a purpose.
pub open spec fn slot_rules(all: Seq<NetworkRule>, slot: Slot) -> Seq<NetworkRule> {
    all.filter(in_slot(bad_rules(all), slot))
}

/// The rules of a list that name a resource to answer with.
pub open spec fn redirect_rules(all: Seq<NetworkRule>) -> Seq<NetworkRule> {
    all.filter(redirecting(bad_rules(all)))
}

/// The rules, tags and resources that requests are checked against.
#[verifier::ext_equal]
pub struct BlockerModel {
    pub csp: Seq<NetworkRule>,
    pub exceptions: Seq<NetworkRule>,
    pub importants: Seq<NetworkRule>,
    pub redirects: Seq<NetworkRule>,
    pub tagged: Seq<NetworkRule>,
    pub filters: Seq<NetworkRule>,
    pub generic_hide: Seq<NetworkRule>,
    /// The tags whose rules are in force.
    pub tags: Set<Seq<char>>,
    pub enable_optimizations: bool,
    pub resources: Map<Seq<char>, RedirectModel>,
}

/// The rules of a list, each stored for its purpose; no tags and no resources.
pub open spec fn blocker_of(all: Seq<NetworkRule>, optimize: bool) -> BlockerModel {
    BlockerModel {
        csp: slot_rules(all, Slot::Csp),
        exceptions: stored(slot_rules(all, Slot::Exception), optimize),
        importants: stored(slot_rules(all, Slot::Important), optimize),
        redirects: redirect_rules(all),
        tagged: stored(slot_rules(all, Slot::Tagged), optimize),
        filters: stored(slot_rules(all, Slot::Plain), optimize),
        generic_hide: stored(slot_rules(all, Slot::GenericHide), optimize),
        tags: Set::empty(),
        enable_optimizations: optimize,
        resources: Map::empty(),
    }
}

/// The first rule of a list that is in force and applies to the request.
pub open spec fn first_match(
    list: Seq<NetworkRule>,
    request: RequestModel,
    tags: Set<Seq<char>>,
) -> Option<NetworkRule>
    decreases list.len(),
{
    if list.len() == 0 {
        None
    } else if list[0].in_force(tags) && list[0].matches(request) {
        Some(list[0])
    } else {
        first_match(list.drop_first(), request, tags)
    }
}

/// Whether a rule is in force and applies to a request.
pub open spec fn matching(request: RequestModel, tags: Set<Seq<char>>) -> spec_fn(
    NetworkRule,
) -> bool {
    |r: NetworkRule| r.in_force(tags) && r.matches(request)
}

/// The rules of a list that are in force and apply to the request.
pub open spec fn all_matches(
    list: Seq<NetworkRule>,
    request: RequestModel,
    tags: Set<Seq<char>>,
) -> Seq<NetworkRule> {
    list.filter(matching(request, tags))
}

/// The address that holds a resource.
pub open spec fn data_address(resource: RedirectModel) -> Seq<char> {
    "data:"@ + resource.content_type + ";base64,"@ + resource.data
}

/// Some rule of a list is an exception.
pub open spec fn has_exception(list: Seq<NetworkRule>) -> bool {
    exists|i: int| 0 <= i < list.len() && (#[trigger] list[i]).mask.exception
}

/// How a rule is shown.
pub open spec fn shown(rule: Option<NetworkRule>) -> Option<Seq<char>> {
    match rule {
        Some(rule) => Some(rule.shown()),
        None => None,
    }
}

/// The policy that a rule adds, where it adds one.
pub open spec fn added_policy(rule: NetworkRule) -> Option<Seq<char>> {
    if rule.mask.exception {
        None
    } else {
        rule.csp
    }
}

/// An exception among the rules takes a policy back.
pub open spec fn policy_taken_back(list: Seq<NetworkRule>, policy: Seq<char>) -> bool {
    exists|i: int|
        0 <= i < list.len() && (#[trigger] list[i]).mask.exception && list[i].csp == Some(policy)
}

/// An exception among the rules takes every policy back.
pub open spec fn all_policies_taken_back(list: Seq<NetworkRule>) -> bool {
    exists|i: int|
        0 <= i < list.len() && (#[trigger] list[i]).mask.exception && list[i].csp is None
}

/// The policies that the rules of a list add and that none takes back, each once.
pub open spec fn policies(list: Seq<NetworkRule>) -> Seq<Seq<char>> {
    unique(
        list.filter_map(
            |r: NetworkRule|
                match added_policy(r) {
                    Some(policy) => if policy_taken_back(list, policy) {
                        None
                    } else {
                        Some(policy)
                    },
                    None => None,
                },
        ),
    )
}

impl BlockerModel {
    /// What the request is answered with: the resource that the first redirecting
    /// rule names, unless a redirecting exception applies too.
    pub open spec fn redirection(self, request: RequestModel) -> Option<Seq<char>> {
        let list = all_matches(self.redirects, request, self.tags);
        if list.len() == 0 || has_exception(list) {
            None
        } else {
            match list[0].redirect {
                Some(name) => if self.resources.contains_key(name) {
                    Some(data_address(self.resources[name]))
                } else {
                    None
                },
                None => None,
            }
        }
    }

    /// The rule that applies to the request. Important rules come first. Where a
    /// rule has matched already, the others are not asked.
    pub open spec fn blocking_rule(self, request: RequestModel, matched_rule: bool) -> Option<
        NetworkRule,
    > {
        let important = first_match(self.importants, request, self.tags);
        let tagged = first_match(self.tagged, request, self.tags);
        if important is Some || matched_rule {
            important
        } else if tagged is Some {
            tagged
        } else {
            first_match(self.filters, request, self.tags)
        }
    }

    /// The exception that lets the request through. None does against an important
    /// rule; without any rule they are asked on demand alone.
    pub open spec fn letting_exception(
        self,
        request: RequestModel,
        matched_rule: bool,
        force: bool,
    ) -> Option<NetworkRule> {
        if first_match(self.importants, request, self.tags) is Some {
            None
        } else if self.blocking_rule(request, matched_rule) is Some || matched_rule || force {
            first_match(self.exceptions, request, self.tags)
        } else {
            None
        }
    }

    /// What becomes of a request, where `matched_rule` says whether a rule has
    /// matched already and `force` whether exceptions are looked for anyway. A
    /// request under a scheme that is not supported passes.
    pub open spec fn verdict(
        self,
        request: RequestModel,
        matched_rule: bool,
        force: bool,
    ) -> Verdict {
        let rule = self.blocking_rule(request, matched_rule);
        let exception = self.letting_exception(request, matched_rule, force);
        if !request.is_supported {
            no_verdict()
        } else {
            Verdict {
                matched: exception is None && (rule is Some || matched_rule),
                important: first_match(self.importants, request, self.tags) is Some,
                redirect: self.redirection(request),
                exception: shown(exception),
                filter: shown(rule),
                error: None,
            }
        }
    }

    /// The policies to add to the answer to a request for a document, joined by
    /// commas; none where there are none, or where an exception takes all of them
    /// back.
    pub open spec fn csp_directives(self, request: RequestModel) -> Option<Seq<char>> {
        let list = all_matches(self.csp, request, self.tags);
        if request.request_type != RequestType::Document && request.request_type
            != RequestType::Subdocument {
            None
        } else if all_policies_taken_back(list) || policies(list).len() == 0 {
            None
        } else {
            Some(join(policies(list), ","@))
        }
    }

    /// Generic cosmetic rules are not to be applied to the page.
    pub open spec fn hides_no_generics(self, request: RequestModel) -> bool {
        first_match(self.generic_hide, request, self.tags) is Some
    }

    /// The rules that are stored for a purpose.
    pub open spec fn slot(self, slot: Slot) -> Seq<NetworkRule> {
        match slot {
            Slot::Csp => self.csp,
            Slot::GenericHide => self.generic_hide,
            Slot::Exception => self.exceptions,
            Slot::Important => self.importants,
            Slot::Tagged => self.tagged,
            Slot::Plain => self.filters,
            Slot::Redirect => self.redirects,
        }
    }

    /// The rule is stored where it belongs.
    pub open spec fn has_rule(self, rule: NetworkRule) -> bool {
        holds(self.slot(slot_of(rule)), rule)
    }
}

/// The rules that a list of references holds.
spec fn referred(list: Seq<&NetworkFilter>) -> Seq<NetworkRule> {
    list.map_values(|f: &NetworkFilter| f@)
}

fn find_slot(filter: &NetworkFilter) -> (r: Slot)
    ensures
        r == slot_of(filter@),
{
    if filter.mask.csp {
        Slot::Csp
    } else if filter.mask.generic_hide {
        Slot::GenericHide
    } else if filter.mask.redirect_only {
        Slot::Redirect
    } else if filter.mask.exception {
        Slot::Exception
    } else if filter.mask.important {
        Slot::Important
    } else if filter.tag.is_some() {
        Slot::Tagged
    } else {
        Slot::Plain
    }
}

fn takes_back(bad: &NetworkFilter, filter: &NetworkFilter) -> (r: bool)
    ensures
        r == cancels(bad@, filter@),
{
    let mask = FilterMask { bad_filter: false, ..bad.mask };
    let r = bad.mask.bad_filter && mask == filter.mask && same_texts(
        &bad.patterns,
        &filter.patterns,
    ) && same_texts(&bad.domains, &filter.domains) && same_texts(
        &bad.not_domains,
        &filter.not_domains,
    ) && same_opt(&bad.redirect, &filter.redirect) && same_opt(&bad.csp, &filter.csp) && same_opt(
        &bad.tag,
        &filter.tag,
    );
    proof {
        let plain = NetworkRule { mask: FilterMask { bad_filter: false, ..bad@.mask }, ..bad@ };
        assert(r ==> without_line(plain) =~= without_line(filter@));
    }
    r
}

fn is_kept(bad: &Vec<NetworkFilter>, filter: &NetworkFilter) -> (r: bool)
    ensures
        r == kept(rules(bad@), filter@),
{
    if filter.mask.bad_filter {
        return false;
    }
    let mut i: usize = 0;
    while i < bad.len()
        invariant
            i <= bad@.len(),
            forall|j: int| 0 <= j < i ==> !cancels(#[trigger] rules(bad@)[j], filter@),
        decreases bad@.len() - i,
    {
        if takes_back(&bad[i], filter) {
            assert(cancels(rules(bad@)[i as int], filter@));
            return false;
        }
        i += 1;
    }
    true
}

fn collect_bad(filters: &Vec<NetworkFilter>) -> (r: Vec<NetworkFilter>)
    ensures
        rules(r@) == bad_rules(rules(filters@)),
{
    let ghost all = rules(filters@);
    let ghost p = |r: NetworkRule| r.mask.bad_filter;
    let mut r: Vec<NetworkFilter> = Vec::new();
    let mut i: usize = 0;
    assert(rules(r@) =~= all.take(0).filter(p));
    while i < filters.len()
        invariant
            i <= filters@.len(),
            all == rules(filters@),
            p == (|r: NetworkRule| r.mask.bad_filter),
            rules(r@) == all.take(i as int).filter(p),
        decreases filters@.len() - i,
    {
        proof {
            lemma_filter_take(all, i as int, p);
        }
        if filters[i].mask.bad_filter {
            let ghost before = rules(r@);
            let filter = filters[i].copy();
            r.push(filter);
            assert(rules(r@) =~= before.push(filter@));
        }
        i += 1;
    }
    assert(all.take(i as int) =~= all);
    r
}

/// The rules that are stored for a purpose.
fn select(filters: &Vec<NetworkFilter>, bad: &Vec<NetworkFilter>, slot: Slot) -> (r: Vec<
    NetworkFilter,
>)
    ensures
        rules(r@) == rules(filters@).filter(in_slot(rules(bad@), slot)),
{
    let ghost all = rules(filters@);
    let ghost p = in_slot(rules(bad@), slot);
    let mut r: Vec<NetworkFilter> = Vec::new();
    let mut i: usize = 0;
    assert(rules(r@) =~= all.take(0).filter(p));
    while i < filters.len()
        invariant
            i <= filters@.len(),
            all == rules(filters@),
            p == in_slot(rules(bad@), slot),
            rules(r@) == all.take(i as int).filter(p),
        decreases filters@.len() - i,
    {
        proof {
            lemma_filter_take(all, i as int, p);
        }
        if find_slot(&filters[i]) == slot && is_kept(bad, &filters[i]) {
            let ghost before = rules(r@);
            let filter = filters[i].copy();
            r.push(filter);
            assert(rules(r@) =~= before.push(filter@));
        }
        i += 1;
    }
    assert(all.take(i as int) =~= all);
    r
}

/// The rules that name a resource to answer with.
fn select_redirects(filters: &Vec<NetworkFilter>, bad: &Vec<NetworkFilter>) -> (r: Vec<
    NetworkFilter,
>)
    ensures
        rules(r@) == rules(filters@).filter(redirecting(rules(bad@))),
{
    let ghost all = rules(filters@);
    let ghost p = redirecting(rules(bad@));
    let mut r: Vec<NetworkFilter> = Vec::new();
    let mut i: usize = 0;
    assert(rules(r@) =~= all.take(0).filter(p));
    while i < filters.len()
        invariant
            i <= filters@.len(),
            all == rules(filters@),
            p == redirecting(rules(bad@)),
            rules(r@) == all.take(i as int).filter(p),
        decreases filters@.len() - i,
    {
        proof {
            lemma_filter_take(all, i as int, p);
        }
        if filters[i].redirect.is_some() && is_kept(bad, &filters[i]) {
            let ghost before = rules(r@);
            let filter = filters[i].copy();
            r.push(filter);
            assert(rules(r@) =~= before.push(filter@));
        }
        i += 1;
    }
    assert(all.take(i as int) =~= all);
    r
}

/// Whether a rule is in force under the tags of a list.
fn is_in_force(filter: &NetworkFilter, tags: &Vec<String>) -> (r: bool)
    ensures
        r == filter@.in_force(strings(tags@).to_set()),
{
    match &filter.tag {
        Some(tag) => has_string(tags, tag.as_str()),
        None => true,
    }
}

/// The first rule of a list that is in force and applies to the request.
fn find_match<'b>(list: &'b Vec<NetworkFilter>, request: &Request, tags: &Vec<String>) -> (r: Option<
    &'b NetworkFilter,
>)
    requires
        request.wf(),
    ensures
        match r {
            Some(filter) => first_match(rules(list@), request@, strings(tags@).to_set()) == Some(
                filter@,
            ),
            None => first_match(rules(list@), request@, strings(tags@).to_set()) is None,
        },
{
    let ghost all = rules(list@);
    let ghost set = strings(tags@).to_set();
    let mut i: usize = 0;
    assert(all.skip(0) =~= all);
    while i < list.len()
        invariant
            request.wf(),
            i <= list@.len(),
            all == rules(list@),
            set == strings(tags@).to_set(),
            first_match(all, request@, set) == first_match(all.skip(i as int), request@, set),
        decreases list@.len() - i,
    {
        assert(all.skip(i as int)[0] == list@[i as int]@);
        assert(all.skip(i as int).drop_first() =~= all.skip(i + 1));
        if is_in_force(&list[i], tags) && list[i].matches(request) {
            return Some(&list[i]);
        }
        i += 1;
    }
    None
}

/// The rules of a list that are in force and apply to the request.
fn find_all<'b>(list: &'b Vec<NetworkFilter>, request: &Request, tags: &Vec<String>) -> (r: Vec<
    &'b NetworkFilter,
>)
    requires
        request.wf(),
    ensures
        referred(r@) == all_matches(rules(list@), request@, strings(tags@).to_set()),
{
    let ghost all = rules(list@);
    let ghost set = strings(tags@).to_set();
    let ghost p = matching(request@, set);
    let mut r: Vec<&'b NetworkFilter> = Vec::new();
    let mut i: usize = 0;
    assert(referred(r@) =~= all.take(0).filter(p));
    while i < list.len()
        invariant
            request.wf(),
            i <= list@.len(),
            all == rules(list@),
            set == strings(tags@).to_set(),
            p == matching(request@, set),
            referred(r@) == all.take(i as int).filter(p),
        decreases list@.len() - i,
    {
        proof {
            lemma_filter_take(all, i as int, p);
        }
        if is_in_force(&list[i], tags) && list[i].matches(request) {
            let ghost before = referred(r@);
            r.push(&list[i]);
            assert(referred(r@) =~= before.push(list@[i as int]@));
        }
        i += 1;
    }
    assert(all.take(i as int) =~= all);
    r
}

fn find_exception(list: &Vec<&NetworkFilter>) -> (r: bool)
    ensures
        r == has_exception(referred(list@)),
{
    let mut i: usize = 0;
    while i < list.len()
        invariant
            i <= list@.len(),
            forall|j: int| 0 <= j < i ==> !(#[trigger] referred(list@)[j]).mask.exception,
        decreases list@.len() - i,
    {
        if list[i].mask.exception {
            assert(referred(list@)[i as int].mask.exception);
            return true;
        }
        i += 1;
    }
    false
}

fn is_taken_back(list: &Vec<&NetworkFilter>, policy: &String) -> (r: bool)
    ensures
        r == policy_taken_back(referred(list@), policy@),
{
    let mut i: usize = 0;
    while i < list.len()
        invariant
            i <= list@.len(),
            forall|j: int|
                0 <= j < i ==> !((#[trigger] referred(list@)[j]).mask.exception && referred(
                    list@,
                )[j].csp == Some(policy@)),
        decreases list@.len() - i,
    {
        let filter = list[i];
        assert(referred(list@)[i as int] == filter@);
        if filter.mask.exception {
            match &filter.csp {
                Some(csp) => if *csp == *policy {
                    assert(referred(list@)[i as int].csp == Some(policy@));
                    return true;
                },
                None => {},
            }
        }
        i += 1;
    }
    false
}

fn are_all_taken_back(list: &Vec<&NetworkFilter>) -> (r: bool)
    ensures
        r == all_policies_taken_back(referred(list@)),
{
    let mut i: usize = 0;
    while i < list.len()
        invariant
            i <= list@.len(),
            forall|j: int|
                0 <= j < i ==> !((#[trigger] referred(list@)[j]).mask.exception && referred(
                    list@,
                )[j].csp is None),
        decreases list@.len() - i,
    {
        let filter = list[i];
        assert(referred(list@)[i as int] == filter@);
        if filter.mask.exception && filter.csp.is_none() {
            return true;
        }
        i += 1;
    }
    false
}

fn collect_policies(list: &Vec<&NetworkFilter>) -> (r: Vec<String>)
    ensures
        strings(r@) == policies(referred(list@)),
{
    let ghost all = referred(list@);
    let ghost f = |r: NetworkRule|
        match added_policy(r) {
            Some(policy) => if policy_taken_back(all, policy) {
                None
            } else {
                Some(policy)
            },
            None => None,
        };
    let mut r: Vec<String> = Vec::new();
    let mut i: usize = 0;
    assert(strings(r@) =~= unique(all.take(0).filter_map(f)));
    while i < list.len()
        invariant
            i <= list@.len(),
            all == referred(list@),
            f == (|r: NetworkRule|
                match added_policy(r) {
                    Some(policy) => if policy_taken_back(all, policy) {
                        None
                    } else {
                        Some(policy)
                    },
                    None => None,
                }),
            strings(r@) == unique(all.take(i as int).filter_map(f)),
        decreases list@.len() - i,
    {
        let filter = list[i];
        proof {
            assert(all[i as int] == filter@);
            lemma_filter_map_take(all, i as int, f);
        }
        if !filter.mask.exception {
            match &filter.csp {
                Some(policy) => if !is_taken_back(list, policy) {
                    assert(all.take(i + 1).filter_map(f).drop_last() =~= all.take(
                        i as int,
                    ).filter_map(f));
                    push_unique(&mut r, policy.clone());
                },
                None => {},
            }
        }
        i += 1;
    }
    assert(all.take(i as int) =~= all);
    r
}

/// The network side of an engine.
#[derive(Debug)]
pub struct Blocker {
    pub csp: Vec<NetworkFilter>,
    pub exceptions: Vec<NetworkFilter>,
    pub importants: Vec<NetworkFilter>,
    pub redirects: Vec<NetworkFilter>,
    pub tagged: Vec<NetworkFilter>,
    pub filters: Vec<NetworkFilter>,
    pub generic_hide: Vec<NetworkFilter>,
    pub tags: Vec<String>,
    pub enable_optimizations: bool,
    pub resources: RedirectResourceStorage,
}

impl View for Blocker {
    type V = BlockerModel;

    open spec fn view(&self) -> BlockerModel {
        BlockerModel {
            csp: rules(self.csp@),
            exceptions: rules(self.exceptions@),
            importants: rules(self.importants@),
            redirects: rules(self.redirects@),
            tagged: rules(self.tagged@),
            filters: rules(self.filters@),
            generic_hide: rules(self.generic_hide@),
            tags: strings(self.tags@).to_set(),
            enable_optimizations: self.enable_optimizations,
            resources: self.resources@,
        }
    }
}

/// Whether a list holds all of some patterns.
fn has_patterns(list: &Vec<Vec<char>>, patterns: &Vec<Vec<char>>) -> (r: bool)
    ensures
        r == forall|j: int|
            0 <= j < texts(patterns@).len() ==> texts(list@).contains(
                #[trigger] texts(patterns@)[j],
            ),
{
    let mut i: usize = 0;
    while i < patterns.len()
        invariant
            i <= patterns@.len(),
            forall|j: int|
                0 <= j < i ==> texts(list@).contains(#[trigger] texts(patterns@)[j]),
        decreases patterns@.len() - i,
    {
        if !has_text(list, patterns[i].as_slice()) {
            assert(!texts(list@).contains(texts(patterns@)[i as int]));
            return false;
        }
        i += 1;
    }
    true
}

/// Whether a list holds a rule.
fn is_held(list: &Vec<NetworkFilter>, filter: &NetworkFilter) -> (r: bool)
    ensures
        r == holds(rules(list@), filter@),
{
    let ghost all = rules(list@);
    let mut i: usize = 0;
    while i < list.len()
        invariant
            i <= list@.len(),
            all == rules(list@),
            forall|k: int| 0 <= k < i ==> !held_by(#[trigger] all[k], filter@),
        decreases list@.len() - i,
    {
        assert(all[i as int] == list@[i as int]@);
        if list[i].same_frame(filter) && has_patterns(&list[i].patterns, &filter.patterns) {
            assert(held_by(all[i as int], filter@));
            return true;
        }
        i += 1;
    }
    false
}

/// The tags of a list, each once.
fn collect_tags(tags: &[&str]) -> (r: Vec<String>)
    ensures
        strings(r@).to_set() == strs(tags@).to_set(),
        strings(r@).no_duplicates(),
{
    let ghost all = strs(tags@);
    let mut r: Vec<String> = Vec::new();
    let mut i: usize = 0;
    assert(strings(r@) =~= unique(all.take(0)));
    while i < tags.len()
        invariant
            i <= tags@.len(),
            all == strs(tags@),
            strings(r@) == unique(all.take(i as int)),
        decreases tags@.len() - i,
    {
        assert(all.take(i + 1).drop_last() =~= all.take(i as int));
        assert(all.take(i + 1).last() == tags@[i as int]@);
        push_unique(&mut r, tags[i].to_owned());
        i += 1;
    }
    proof {
        assert(all.take(i as int) =~= all);
        lemma_unique(all);
    }
    r
}

impl Blocker {
    /// Stores the rules of a list, each for its purpose.
    pub fn new(network_filters: Vec<NetworkFilter>, options: BlockerOptions) -> (r: Blocker)
        ensures
            r@ == blocker_of(rules(network_filters@), options.enable_optimizations),
    {
        let optimize = options.enable_optimizations;
        let bad = collect_bad(&network_filters);
        let r = Blocker {
            csp: select(&network_filters, &bad, Slot::Csp),
            exceptions: store(select(&network_filters, &bad, Slot::Exception), optimize),
            importants: store(select(&network_filters, &bad, Slot::Important), optimize),
            redirects: select_redirects(&network_filters, &bad),
            tagged: store(select(&network_filters, &bad, Slot::Tagged), optimize),
            filters: store(select(&network_filters, &bad, Slot::Plain), optimize),
            generic_hide: store(select(&network_filters, &bad, Slot::GenericHide), optimize),
            tags: Vec::new(),
            enable_optimizations: optimize,
            resources: RedirectResourceStorage::new(),
        };
        assert(r@ =~= blocker_of(rules(network_filters@), optimize));
        r
    }

    /// What the request is answered with.
    fn find_redirection(&self, request: &Request) -> (r: Option<Redirection>)
        requires
            request.wf(),
        ensures
            (match r {
                Some(Redirection::Resource(data)) => Some(data@),
                None => None,
            }) == self@.redirection(request@),
    {
        let list = find_all(&self.redirects, request, &self.tags);
        if list.len() == 0 || find_exception(&list) {
            return None;
        }
        assert(referred(list@)[0] == list@[0]@);
        match &list[0].redirect {
            Some(name) => match self.resources.get_resource(name.as_str()) {
                Some(resource) => {
                    let address = "data:".to_owned().concat(resource.content_type.as_str()).concat(
                        ";base64,",
                    ).concat(resource.data.as_str());
                    Some(Redirection::Resource(address))
                },
                None => None,
            },
            None => None,
        }
    }

    /// What becomes of a request that no rule has matched yet.
    pub fn check(&self, request: &Request) -> (r: BlockerResult)
        requires
            request.wf(),
        ensures
            r@ == self@.verdict(request@, false, false),
    {
        self.check_parameterised(request, false, false)
    }

    /// What becomes of a request, where `matched_rule` says whether a rule has
    /// matched already and `force_check_exceptions` whether exceptions are looked
    /// for anyway.
    pub fn check_parameterised(
        &self,
        request: &Request,
        matched_rule: bool,
        force_check_exceptions: bool,
    ) -> (r: BlockerResult)
        requires
            request.wf(),
        ensures
            r@ == self@.verdict(request@, matched_rule, force_check_exceptions),
    {
        if !request.is_supported {
            return BlockerResult::default();
        }
        let important = find_match(&self.importants, request, &self.tags);
        let rule = if important.is_some() || matched_rule {
            important
        } else {
            match find_match(&self.tagged, request, &self.tags) {
                Some(filter) => Some(filter),
                None => find_match(&self.filters, request, &self.tags),
            }
        };
        let exception = if important.is_some() {
            None
        } else if rule.is_some() || matched_rule || force_check_exceptions {
            find_match(&self.exceptions, request, &self.tags)
        } else {
            None
        };
        let redirect = self.find_redirection(request);
        let r = BlockerResult {
            matched: exception.is_none() && (rule.is_some() || matched_rule),
            important: important.is_some(),
            redirect,
            exception: match exception {
                Some(filter) => Some(filter.show()),
                None => None,
            },
            filter: match rule {
                Some(filter) => Some(filter.show()),
                None => None,
            },
            error: None,
        };
        assert(r@ =~= self@.verdict(request@, matched_rule, force_check_exceptions));
        r
    }

    /// The policies to add to the answer to a request for a document, joined by
    /// commas.
    pub fn get_csp_directives(&self, request: &Request) -> (r: Option<String>)
        requires
            request.wf(),
        ensures
            opt_text(r) == self@.csp_directives(request@),
    {
        if request.request_type != RequestType::Document && request.request_type
            != RequestType::Subdocument {
            return None;
        }
        let list = find_all(&self.csp, request, &self.tags);
        if are_all_taken_back(&list) {
            return None;
        }
        let policies = collect_policies(&list);
        if policies.len() == 0 {
            return None;
        }
        Some(join_strings(&policies, ","))
    }

    /// Whether generic cosmetic rules are not to be applied to the page.
    pub fn check_generic_hide(&self, request: &Request) -> (r: bool)
        requires
            request.wf(),
        ensures
            r == self@.hides_no_generics(request@),
    {
        find_match(&self.generic_hide, request, &self.tags).is_some()
    }

    /// Whether the rule is stored.
    pub fn filter_exists(&self, filter: &NetworkFilter) -> (r: bool)
        ensures
            r == self@.has_rule(filter@),
    {
        match find_slot(filter) {
            Slot::Csp => is_held(&self.csp, filter),
            Slot::GenericHide => is_held(&self.generic_hide, filter),
            Slot::Exception => is_held(&self.exceptions, filter),
            Slot::Important => is_held(&self.importants, filter),
            Slot::Tagged => is_held(&self.tagged, filter),
            Slot::Plain => is_held(&self.filters, filter),
            Slot::Redirect => is_held(&self.redirects, filter),
        }
    }

    /// Enables the given tags and no others.
    pub fn use_tags(&mut self, tags: &[&str])
        ensures
            final(self)@ == (BlockerModel { tags: strs(tags@).to_set(), ..old(self)@ }),
            *final(self) == (Blocker { tags: final(self).tags, ..*old(self) }),
    {
        self.tags = collect_tags(tags);
    }

    /// Enables the given tags, too.
    pub fn enable_tags(&mut self, tags: &[&str])
        ensures
            final(self)@ == (BlockerModel {
                tags: old(self)@.tags.union(strs(tags@).to_set()),
                ..old(self)@
            }),
            *final(self) == (Blocker { tags: final(self).tags, ..*old(self) }),
    {
        let ghost all = strs(tags@);
        let mut i: usize = 0;
        assert(old(self)@.tags.union(all.take(0).to_set()) =~= old(self)@.tags);
        while i < tags.len()
            invariant
                i <= tags@.len(),
                all == strs(tags@),
                self@ == (BlockerModel {
                    tags: old(self)@.tags.union(all.take(i as int).to_set()),
                    ..old(self)@
                }),
                *self == (Blocker { tags: self.tags, ..*old(self) }),
            decreases tags@.len() - i,
        {
            let ghost before = strings(self.tags@);
            let ghost x = tags@[i as int]@;
            push_unique(&mut self.tags, tags[i].to_owned());
            proof {
                assert forall|y: Seq<char>|
                    strings(self.tags@).to_set().contains(y) <==> #[trigger] old(
                        self,
                    )@.tags.union(all.take(i + 1).to_set()).contains(y) by {
                    lemma_contains_pushed(before, x, y);
                    lemma_contains_pushed(all.take(i as int), x, y);
                    assert(all.take(i + 1) =~= all.take(i as int).push(x));
                    assert(before.to_set().contains(y) <==> old(self)@.tags.union(
                        all.take(i as int).to_set(),
                    ).contains(y));
                }
                assert(strings(self.tags@).to_set() =~= old(self)@.tags.union(
                    all.take(i + 1).to_set(),
                ));
            }
            i += 1;
        }
        assert(all.take(i as int) =~= all);
    }

    /// Enables the given tags no longer.
    pub fn disable_tags(&mut self, tags: &[&str])
        ensures
            final(self)@ == (BlockerModel {
                tags: old(self)@.tags.difference(strs(tags@).to_set()),
                ..old(self)@
            }),
            *final(self) == (Blocker { tags: final(self).tags, ..*old(self) }),
    {
        let dropped = collect_tags(tags);
        let ghost all = strings(self.tags@);
        let ghost gone = strs(tags@).to_set();
        let mut left: Vec<String> = Vec::new();
        let mut i: usize = 0;
        assert(strings(left@).to_set() =~= all.take(0).to_set().difference(gone));
        while i < self.tags.len()
            invariant
                *self == *old(self),
                i <= self.tags@.len(),
                all == strings(self.tags@),
                gone == strs(tags@).to_set(),
                strings(dropped@).to_set() == gone,
                strings(left@).to_set() == all.take(i as int).to_set().difference(gone),
            decreases self.tags@.len() - i,
        {
            let ghost before = strings(left@);
            let ghost x = self.tags@[i as int]@;
            let stays = !has_string(&dropped, self.tags[i].as_str());
            if stays {
                left.push(self.tags[i].clone());
            }
            proof {
                assert(gone.contains(x) <==> strings(dropped@).contains(x));
                assert(strings(left@) =~= if stays {
                    before.push(x)
                } else {
                    before
                });
                assert(all.take(i + 1) =~= all.take(i as int).push(x));
                assert forall|y: Seq<char>|
                    strings(left@).to_set().contains(y) <==> #[trigger] all.take(
                        i + 1,
                    ).to_set().difference(gone).contains(y) by {
                    lemma_contains_pushed(before, x, y);
                    lemma_contains_pushed(all.take(i as int), x, y);
                    assert(before.to_set().contains(y) <==> all.take(
                        i as int,
                    ).to_set().difference(gone).contains(y));
                }
                assert(strings(left@).to_set() =~= all.take(i + 1).to_set().difference(gone));
            }
            i += 1;
        }
        assert(all.take(i as int) =~= all);
        self.tags = left;
    }

    /// The tags that are enabled.
    pub fn tags_enabled(&self) -> (r: Vec<String>)
        ensures
            strings(r@) == strings(self.tags@),
            strings(r@).to_set() == self@.tags,
    {
        let mut r: Vec<String> = Vec::new();
        let mut i: usize = 0;
        while i < self.tags.len()
            invariant
                i <= self.tags@.len(),
                strings(r@) == strings(self.tags@).take(i as int),
            decreases self.tags@.len() - i,
        {
            let ghost before = strings(r@);
            r.push(self.tags[i].clone());
            assert(strings(r@) =~= before.push(self.tags@[i as int]@));
            i += 1;
            assert(strings(r@) =~= strings(self.tags@).take(i as int));
        }
        assert(strings(self.tags@).take(i as int) =~= strings(self.tags@));
        r
    }

    /// Keeps the answers that the given resources make and no others.
    pub fn use_resources(&mut self, resources: &[Resource])
        ensures
            final(self)@ == (BlockerModel {
                resources: redirects_of(resource_models(resources@)),
                ..old(self)@
            }),
    {
        self.resources = RedirectResourceStorage::from_resources(resources);
    }

    /// Adds the answer that a resource makes.
    pub fn add_resource(&mut self, resource: &Resource) -> (r: Result<(), AddResourceError>)
        ensures
            final(self)@ == (BlockerModel {
                resources: redirects_with(old(self)@.resources, resource@),
                ..old(self)@
            }),
            match r {
                Ok(_) => resource@.kind is Template || resource@.flaw() is None,
                Err(e) => resource@.kind is Mime && resource@.flaw() == Some(e),
            },
    {
        self.resources.add_resource(resource)
    }

    /// The answer under a name.
    pub fn get_resource(&self, key: &str) -> (r: Option<&RedirectResource>)
        ensures
            match r {
                Some(resource) => self@.resources.contains_key(key@) && self@.resources[key@]
                    == resource@,
                None => !self@.resources.contains_key(key@),
            },
    {
        self.resources.get_resource(key)
    }
}

} // verus!

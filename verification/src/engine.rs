//! The engine: rules, tags and resources together, and what is asked of them.

use vstd::prelude::*;

use crate::blocker::{
    blocker_of, no_verdict, Blocker, BlockerError, BlockerModel, BlockerOptions, BlockerResult,
    Verdict,
};
use crate::cosmetic_filter_cache::{
    cosmetic_of, nothing_to_do, CosmeticFilterCache, CosmeticModel, UrlSpecificResources,
};
use crate::data_format::{
    data_of, grouped_bytes, grouped_data_items, gzip_mark, load, raw_bytes, raw_items,
    save_compressed, save_raw, saved_in, DataModel,
};
use crate::directory::in_force;
use crate::filters::network::NetworkFilter;
use crate::filters::network_parser::parse_rule;
use crate::laws::formats_differ;
use crate::lists::{FilterFormat, FilterSet, ParseOptions, RuleSet};
use crate::msgpack::all_fit;
use crate::outside::{gzip_data, gzip_member};
use crate::request::{request_from_hostnames, request_from_url, request_from_urls, Request};
use crate::resources::{
    redirects_of, redirects_with, resource_models, scriptlets_of, scriptlets_with,
    AddResourceError, RedirectResource, Resource, ResourceModel,
};
use crate::text::{has_string, opt_text, strings, strs};

verus! {

/// The rules, tags and resources of an engine.
#[verifier::ext_equal]
pub struct EngineModel {
    pub blocker: BlockerModel,
    pub cosmetics: CosmeticModel,
}

/// The engine with the rules of a set.
pub open spec fn engine_of(set: RuleSet, optimize: bool) -> EngineModel {
    EngineModel {
        blocker: blocker_of(set.network, optimize),
        cosmetics: cosmetic_of(set.cosmetic),
    }
}

/// The rules of some lines.
pub open spec fn lines_set(lines: Seq<Seq<char>>, format: FilterFormat, debug: bool) -> RuleSet {
    RuleSet::empty(debug).with_lines(lines, format)
}

/// The verdict on a request for no address.
pub open spec fn parse_failure() -> Verdict {
    Verdict { error: Some("Error parsing request"@), ..no_verdict() }
}

/// The engine that was saved, with tags enabled.
pub open spec fn restored(data: DataModel, tags: Set<Seq<char>>) -> EngineModel {
    EngineModel {
        blocker: BlockerModel {
            csp: data.csp,
            exceptions: data.exceptions,
            importants: data.importants,
            redirects: data.redirects,
            tagged: data.tagged,
            filters: data.filters,
            generic_hide: data.generic_hide,
            tags,
            enable_optimizations: data.enable_optimizations,
            resources: in_force(data.resources),
        },
        cosmetics: CosmeticModel {
            generic: data.generic,
            specific: data.specific,
            scriptlets: in_force(data.scriptlets),
        },
    }
}

impl EngineModel {
    /// The engine with other tags enabled.
    pub open spec fn with_tags(self, tags: Set<Seq<char>>) -> EngineModel {
        EngineModel { blocker: BlockerModel { tags, ..self.blocker }, ..self }
    }

    /// The engine with the resources of a list and no others.
    pub open spec fn with_resources(self, resources: Seq<ResourceModel>) -> EngineModel {
        EngineModel {
            blocker: BlockerModel { resources: redirects_of(resources), ..self.blocker },
            cosmetics: CosmeticModel { scriptlets: scriptlets_of(resources), ..self.cosmetics },
        }
    }

    /// The engine with one more resource.
    pub open spec fn with_resource(self, resource: ResourceModel) -> EngineModel {
        EngineModel {
            blocker: BlockerModel {
                resources: redirects_with(self.blocker.resources, resource),
                ..self.blocker
            },
            cosmetics: CosmeticModel {
                scriptlets: scriptlets_with(self.cosmetics.scriptlets, resource),
                ..self.cosmetics
            },
        }
    }
}

/// Blocks requests and hides page elements.
#[derive(Debug)]
pub struct Engine {
    pub blocker: Blocker,
    pub cosmetic_cache: CosmeticFilterCache,
}

impl View for Engine {
    type V = EngineModel;

    open spec fn view(&self) -> EngineModel {
        EngineModel { blocker: self.blocker@, cosmetics: self.cosmetic_cache@ }
    }
}

impl Engine {
    /// What is saved of the engine.
    pub open spec fn data(&self) -> DataModel {
        data_of(self.blocker, self.cosmetic_cache)
    }

    /// What is saved of an engine is all of it, but for the tags that are enabled.
    pub proof fn lemma_data(&self)
        ensures
            self@ == restored(self.data(), self@.blocker.tags),
            forall|tags: Set<Seq<char>>| #[trigger]
                restored(self.data(), tags) == self@.with_tags(tags),
    {
        assert(self@ =~= restored(self.data(), self@.blocker.tags));
        assert forall|tags: Set<Seq<char>>| #[trigger]
            restored(self.data(), tags) == self@.with_tags(tags) by {
            assert(restored(self.data(), tags) =~= self@.with_tags(tags));
        }
    }
}

impl Default for Engine {
    /// An engine without rules that compresses rule lists.
    fn default() -> (r: Engine)
        ensures
            r@ == engine_of(RuleSet::empty(false), true),
    {
        Engine::new(true)
    }
}

impl Engine {
    /// An engine without rules. It is of use to load a saved one into.
    /// - `optimize` says whether lists of rules are compressed by joining similar
    /// ones.
    pub fn new(optimize: bool) -> (r: Engine)
        ensures
            r@ == engine_of(RuleSet::empty(false), optimize),
    {
        let network_filters: Vec<NetworkFilter> = Vec::new();
        assert(crate::filters::network::rules(network_filters@) =~= Seq::empty());
        Engine {
            blocker: Blocker::new(
                network_filters,
                BlockerOptions { enable_optimizations: optimize },
            ),
            cosmetic_cache: CosmeticFilterCache::new(),
        }
    }

    /// Loads rules of one format, joining similar ones and keeping no lines.
    pub fn from_rules(rules: &[String], opts: ParseOptions) -> (r: Engine)
        ensures
            r@ == engine_of(lines_set(strings(rules@), opts.format, false), true),
    {
        let mut filter_set = FilterSet::new(false);
        filter_set.add_filters(rules, opts);
        Engine::from_filter_set(filter_set, true)
    }

    /// Loads rules of one format, joining similar ones and keeping their lines.
    pub fn from_rules_debug(rules: &[String], opts: ParseOptions) -> (r: Engine)
        ensures
            r@ == engine_of(lines_set(strings(rules@), opts.format, true), true),
    {
        Engine::from_rules_parametrised(rules, opts, true, true)
    }

    /// Loads rules of one format. `debug` says whether their lines are kept,
    /// `optimize` whether similar rules are joined.
    pub fn from_rules_parametrised(
        filter_rules: &[String],
        opts: ParseOptions,
        debug: bool,
        optimize: bool,
    ) -> (r: Engine)
        ensures
            r@ == engine_of(lines_set(strings(filter_rules@), opts.format, debug), optimize),
    {
        let mut filter_set = FilterSet::new(debug);
        filter_set.add_filters(filter_rules, opts);
        Engine::from_filter_set(filter_set, optimize)
    }

    /// Loads the rules of a set. A set can hold rules of several sources.
    pub fn from_filter_set(set: FilterSet, optimize: bool) -> (r: Engine)
        ensures
            r@ == engine_of(set@, optimize),
    {
        let FilterSet { network_filters, cosmetic_filters, .. } = set;
        Engine {
            blocker: Blocker::new(
                network_filters,
                BlockerOptions { enable_optimizations: optimize },
            ),
            cosmetic_cache: CosmeticFilterCache::from_rules(cosmetic_filters),
        }
    }

    /// Saves the engine, so that it can be loaded quickly later. It fails where a
    /// text or a list is too long for the format. What is saved gives the engine
    /// back, with whatever tags are enabled where it is loaded.
    pub fn serialize_raw(&self) -> (r: Result<Vec<u8>, BlockerError>)
        ensures
            match r {
                Ok(bytes) => {
                    &&& all_fit(raw_items(self.data()))
                    &&& bytes@ == raw_bytes(self.data())
                    &&& saved_in(bytes@) == Some(self.data())
                },
                Err(e) => {
                    &&& !all_fit(raw_items(self.data()))
                    &&& e == BlockerError::SerializationError
                },
            },
    {
        match save_raw(&self.blocker, &self.cosmetic_cache) {
            Some(bytes) => Ok(bytes),
            None => Err(BlockerError::SerializationError),
        }
    }

    /// Saves the engine in a compressed format, which is not the format of
    /// `serialize_raw` compressed, but one of its own. It fails where a text or a
    /// list is too long for the format, or where compression fails. What is saved
    /// gives the engine back, with whatever tags are enabled where it is loaded.
    pub fn serialize_compressed(&self) -> (r: Result<Vec<u8>, BlockerError>)
        ensures
            match r {
                Ok(bytes) => {
                    &&& all_fit(grouped_data_items(self.data()))
                    &&& gzip_member(grouped_bytes(self.data())) == Some(bytes@)
                    &&& gzip_mark().is_prefix_of(bytes@)
                    &&& gzip_data(bytes@) == Some(grouped_bytes(self.data()))
                    &&& bytes@ != raw_bytes(self.data())
                    &&& gzip_data(bytes@) != Some(raw_bytes(self.data()))
                    &&& saved_in(bytes@) == Some(self.data())
                },
                Err(e) => {
                    &&& !all_fit(grouped_data_items(self.data())) || gzip_member(
                        grouped_bytes(self.data()),
                    ) is None
                    &&& e == BlockerError::SerializationError
                },
            },
    {
        match save_compressed(&self.blocker, &self.cosmetic_cache) {
            Some(bytes) => {
                proof {
                    formats_differ(self.data(), bytes@);
                }
                Ok(bytes)
            },
            None => Err(BlockerError::SerializationError),
        }
    }

    /// Loads an engine that was saved, in either format, in place of this one. The
    /// tags of this engine stay enabled, and no others are. Where the bytes are in
    /// no format, the engine stays as it is.
    pub fn deserialize(&mut self, serialized: &[u8]) -> (r: Result<(), BlockerError>)
        ensures
            match r {
                Ok(_) => {
                    &&& saved_in(serialized@) == Some(final(self).data())
                    &&& final(self)@ == restored(final(self).data(), old(self)@.blocker.tags)
                },
                Err(e) => {
                    &&& saved_in(serialized@) is None
                    &&& e == BlockerError::DeserializationError
                    &&& *final(self) == *old(self)
                },
            },
    {
        let current_tags = self.blocker.tags_enabled();
        match load(serialized) {
            Some((blocker, cosmetic_cache)) => {
                let mut tags: Vec<&str> = Vec::new();
                let mut i: usize = 0;
                assert(strs(tags@) =~= strings(current_tags@).take(0));
                while i < current_tags.len()
                    invariant
                        i <= current_tags@.len(),
                        strs(tags@) == strings(current_tags@).take(i as int),
                    decreases current_tags@.len() - i,
                {
                    let ghost before = strs(tags@);
                    let tag = current_tags[i].as_str();
                    tags.push(tag);
                    assert(strs(tags@) =~= before.push(tag@));
                    i += 1;
                    assert(strs(tags@) =~= strings(current_tags@).take(i as int));
                }
                assert(strings(current_tags@).take(i as int) =~= strings(current_tags@));
                self.blocker = blocker;
                self.blocker.use_tags(tags.as_slice());
                self.cosmetic_cache = cosmetic_cache;
                proof {
                    self.lemma_data();
                }
                Ok(())
            },
            None => Err(BlockerError::DeserializationError),
        }
    }

    /// Whether a request for `url`, of a type, that a page at `source_url` makes
    /// is to be blocked.
    pub fn check_network_urls(&self, url: &str, source_url: &str, request_type: &str) -> (r:
        BlockerResult)
        ensures
            r@ == match request_from_urls(url@, source_url@, request_type@) {
                Some(request) => self@.blocker.verdict(request, false, false),
                None => parse_failure(),
            },
    {
        match Request::from_urls(url, source_url, request_type) {
            Ok(request) => self.blocker.check(&request),
            Err(_) => BlockerResult {
                matched: false,
                important: false,
                redirect: None,
                exception: None,
                filter: None,
                error: Some("Error parsing request".to_owned()),
            },
        }
    }

    /// Whether a request is to be blocked, for a caller that has found the host
    /// names, and perhaps whether the request leaves its source's domain.
    pub fn check_network_urls_with_hostnames(
        &self,
        url: &str,
        hostname: &str,
        source_hostname: &str,
        request_type: &str,
        third_party_request: Option<bool>,
    ) -> (r: BlockerResult)
        ensures
            r@ == self@.blocker.verdict(
                request_from_hostnames(
                    url@,
                    hostname@,
                    source_hostname@,
                    request_type@,
                    third_party_request,
                ),
                false,
                false,
            ),
    {
        let request = Request::from_urls_with_hostname(
            url,
            hostname,
            source_hostname,
            request_type,
            third_party_request,
        );
        self.blocker.check(&request)
    }

    /// Whether a request is to be blocked, for a caller that asks several engines:
    /// `previously_matched_rule` says whether a rule of another has matched,
    /// `force_check_exceptions` whether exceptions are looked for even where no
    /// rule matches.
    pub fn check_network_urls_with_hostnames_subset(
        &self,
        url: &str,
        hostname: &str,
        source_hostname: &str,
        request_type: &str,
        third_party_request: Option<bool>,
        previously_matched_rule: bool,
        force_check_exceptions: bool,
    ) -> (r: BlockerResult)
        ensures
            r@ == self@.blocker.verdict(
                request_from_hostnames(
                    url@,
                    hostname@,
                    source_hostname@,
                    request_type@,
                    third_party_request,
                ),
                previously_matched_rule,
                force_check_exceptions,
            ),
    {
        let request = Request::from_urls_with_hostname(
            url,
            hostname,
            source_hostname,
            request_type,
            third_party_request,
        );
        self.blocker.check_parameterised(&request, previously_matched_rule, force_check_exceptions)
    }

    /// The content security policies to add to the answer to a request for a
    /// document or a subdocument. Those of several rules are joined by commas.
    pub fn get_csp_directives(
        &self,
        url: &str,
        hostname: &str,
        source_hostname: &str,
        request_type: &str,
        third_party_request: Option<bool>,
    ) -> (r: Option<String>)
        ensures
            opt_text(r) == self@.blocker.csp_directives(
                request_from_hostnames(
                    url@,
                    hostname@,
                    source_hostname@,
                    request_type@,
                    third_party_request,
                ),
            ),
    {
        let request = Request::from_urls_with_hostname(
            url,
            hostname,
            source_hostname,
            request_type,
            third_party_request,
        );
        self.blocker.get_csp_directives(&request)
    }

    /// Whether a network rule was added to the engine.
    pub fn filter_exists(&self, filter: &str) -> (r: bool)
        ensures
            r == match parse_rule(filter@, false) {
                Ok(rule) => self@.blocker.has_rule(rule),
                Err(_) => false,
            },
    {
        match NetworkFilter::parse(filter, false) {
            Ok(filter) => self.blocker.filter_exists(&filter),
            Err(_) => false,
        }
    }

    /// Enables the given tags and no others. Rules with a `tag` option are in
    /// force while the tag is enabled.
    pub fn use_tags(&mut self, tags: &[&str])
        ensures
            final(self)@ == old(self)@.with_tags(strs(tags@).to_set()),
            final(self).data() == old(self).data(),
    {
        self.blocker.use_tags(tags);
    }

    /// Enables the given tags, too.
    pub fn enable_tags(&mut self, tags: &[&str])
        ensures
            final(self)@ == old(self)@.with_tags(
                old(self)@.blocker.tags.union(strs(tags@).to_set()),
            ),
            final(self).data() == old(self).data(),
    {
        self.blocker.enable_tags(tags);
    }

    /// Enables the given tags no longer.
    pub fn disable_tags(&mut self, tags: &[&str])
        ensures
            final(self)@ == old(self)@.with_tags(
                old(self)@.blocker.tags.difference(strs(tags@).to_set()),
            ),
            final(self).data() == old(self).data(),
    {
        self.blocker.disable_tags(tags);
    }

    /// Whether a tag is enabled.
    pub fn tag_exists(&self, tag: &str) -> (r: bool)
        ensures
            r == self@.blocker.tags.contains(tag@),
    {
        let tags = self.blocker.tags_enabled();
        assert(self@.blocker.tags.contains(tag@) == strings(tags@).to_set().contains(tag@));
        has_string(&tags, tag)
    }

    /// Keeps the given resources and no others. A flawed one is passed over.
    pub fn use_resources(&mut self, resources: &[Resource])
        ensures
            final(self)@ == old(self)@.with_resources(resource_models(resources@)),
    {
        self.blocker.use_resources(resources);
        self.cosmetic_cache.use_resources(resources);
    }

    /// Adds a resource. A flawed one leaves the engine as it is.
    pub fn add_resource(&mut self, resource: Resource) -> (r: Result<(), AddResourceError>)
        ensures
            match r {
                Ok(_) => {
                    &&& resource@.flaw() is None
                    &&& final(self)@ == old(self)@.with_resource(resource@)
                },
                Err(e) => {
                    &&& resource@.flaw() == Some(e)
                    &&& final(self)@ == old(self)@
                },
            },
    {
        match self.blocker.add_resource(&resource) {
            Ok(_) => self.cosmetic_cache.add_resource(&resource),
            Err(e) => Err(e),
        }
    }

    /// The resource under a name.
    pub fn get_resource(&self, key: &str) -> (r: Option<RedirectResource>)
        ensures
            match r {
                Some(resource) => {
                    &&& self@.blocker.resources.contains_key(key@)
                    &&& self@.blocker.resources[key@] == resource@
                },
                None => !self@.blocker.resources.contains_key(key@),
            },
    {
        match self.blocker.get_resource(key) {
            Some(resource) => Some(resource.copy()),
            None => None,
        }
    }

    /// The selectors of generic rules that name one of the classes or ids, but for
    /// the exceptions, which `url_cosmetic_resources` gives.
    pub fn hidden_class_id_selectors(
        &self,
        classes: &[String],
        ids: &[String],
        exceptions: &Vec<String>,
    ) -> (r: Vec<String>)
        ensures
            strings(r@) == self@.cosmetics.keyed('.', strings(classes@), strings(exceptions@))
                + self@.cosmetics.keyed('#', strings(ids@), strings(exceptions@)),
    {
        self.cosmetic_cache.hidden_class_id_selectors(classes, ids, exceptions)
    }

    /// What to do on the page at `url`. The classes and ids of its elements are to
    /// be passed to `hidden_class_id_selectors` unless `generichide` is set.
    pub fn url_cosmetic_resources(&self, url: &str) -> (r: UrlSpecificResources)
        ensures
            r@ == match request_from_url(url@) {
                Some(request) => self@.cosmetics.page(
                    request.hostname,
                    self@.blocker.hides_no_generics(request),
                ),
                None => nothing_to_do(),
            },
    {
        match Request::from_url(url) {
            Ok(request) => {
                let generichide = self.blocker.check_generic_hide(&request);
                self.cosmetic_cache.hostname_cosmetic_resources(
                    request.hostname.as_slice(),
                    generichide,
                )
            },
            Err(_) => UrlSpecificResources::empty(),
        }
    }
}

} // verus!

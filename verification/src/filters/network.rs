//! Network rules: which requests a rule applies to.

use vstd::prelude::*;
use vstd::slice::slice_to_vec;

use crate::filters::pattern::{
    covers, covers_host, is_covered, is_covered_later, is_host_covered, stands_in,
};
use crate::outside::{regex_matches, regex_verdict};
use crate::request::{Request, RequestModel, RequestType};
use crate::text::{lower, opt_text, same_text, string_of, texts};

verus! {

/// A set of kinds of request.
#[derive(Clone, Copy, Debug, PartialEq, Eq, Structural)]
pub struct KindSet {
    pub image: bool,
    pub media: bool,
    pub object: bool,
    pub other: bool,
    pub ping: bool,
    pub script: bool,
    pub stylesheet: bool,
    pub subdocument: bool,
    pub websocket: bool,
    pub xmlhttprequest: bool,
    pub font: bool,
    pub document: bool,
}

impl KindSet {
    /// The set holds a kind. No set holds the kind of policy reports.
    pub open spec fn has(self, kind: RequestType) -> bool {
        match kind {
            RequestType::Csp => false,
            RequestType::Document => self.document,
            RequestType::Font => self.font,
            RequestType::Image => self.image,
            RequestType::Media => self.media,
            RequestType::Object => self.object,
            RequestType::Other => self.other,
            RequestType::Ping => self.ping,
            RequestType::Script => self.script,
            RequestType::Stylesheet => self.stylesheet,
            RequestType::Subdocument => self.subdocument,
            RequestType::Websocket => self.websocket,
            RequestType::Xmlhttprequest => self.xmlhttprequest,
        }
    }

    /// The set that holds every kind, or none; `document` says whether it holds
    /// documents.
    pub open spec fn uniform(all: bool, document: bool) -> KindSet {
        KindSet {
            image: all,
            media: all,
            object: all,
            other: all,
            ping: all,
            script: all,
            stylesheet: all,
            subdocument: all,
            websocket: all,
            xmlhttprequest: all,
            font: all,
            document,
        }
    }

    /// The set with one more kind.
    pub open spec fn with(self, kind: RequestType) -> KindSet {
        KindSet {
            image: self.image || kind == RequestType::Image,
            media: self.media || kind == RequestType::Media,
            object: self.object || kind == RequestType::Object,
            other: self.other || kind == RequestType::Other,
            ping: self.ping || kind == RequestType::Ping,
            script: self.script || kind == RequestType::Script,
            stylesheet: self.stylesheet || kind == RequestType::Stylesheet,
            subdocument: self.subdocument || kind == RequestType::Subdocument,
            websocket: self.websocket || kind == RequestType::Websocket,
            xmlhttprequest: self.xmlhttprequest || kind == RequestType::Xmlhttprequest,
            font: self.font || kind == RequestType::Font,
            document: self.document || kind == RequestType::Document,
        }
    }

    /// The set without the kinds of another.
    pub open spec fn minus(self, other: KindSet) -> KindSet {
        KindSet {
            image: self.image && !other.image,
            media: self.media && !other.media,
            object: self.object && !other.object,
            other: self.other && !other.other,
            ping: self.ping && !other.ping,
            script: self.script && !other.script,
            stylesheet: self.stylesheet && !other.stylesheet,
            subdocument: self.subdocument && !other.subdocument,
            websocket: self.websocket && !other.websocket,
            xmlhttprequest: self.xmlhttprequest && !other.xmlhttprequest,
            font: self.font && !other.font,
            document: self.document && !other.document,
        }
    }

    /// Whether the set holds a kind.
    pub fn contains(&self, kind: RequestType) -> (r: bool)
        ensures
            r == self.has(kind),
    {
        match kind {
            RequestType::Csp => false,
            RequestType::Document => self.document,
            RequestType::Font => self.font,
            RequestType::Image => self.image,
            RequestType::Media => self.media,
            RequestType::Object => self.object,
            RequestType::Other => self.other,
            RequestType::Ping => self.ping,
            RequestType::Script => self.script,
            RequestType::Stylesheet => self.stylesheet,
            RequestType::Subdocument => self.subdocument,
            RequestType::Websocket => self.websocket,
            RequestType::Xmlhttprequest => self.xmlhttprequest,
        }
    }

    /// The set that holds every kind, or none; `document` says whether it holds
    /// documents.
    pub fn all_alike(all: bool, document: bool) -> (r: KindSet)
        ensures
            r == KindSet::uniform(all, document),
    {
        KindSet {
            image: all,
            media: all,
            object: all,
            other: all,
            ping: all,
            script: all,
            stylesheet: all,
            subdocument: all,
            websocket: all,
            xmlhttprequest: all,
            font: all,
            document,
        }
    }

    /// The set with one more kind.
    pub fn plus(self, kind: RequestType) -> (r: KindSet)
        ensures
            r == self.with(kind),
    {
        KindSet {
            image: self.image || kind == RequestType::Image,
            media: self.media || kind == RequestType::Media,
            object: self.object || kind == RequestType::Object,
            other: self.other || kind == RequestType::Other,
            ping: self.ping || kind == RequestType::Ping,
            script: self.script || kind == RequestType::Script,
            stylesheet: self.stylesheet || kind == RequestType::Stylesheet,
            subdocument: self.subdocument || kind == RequestType::Subdocument,
            websocket: self.websocket || kind == RequestType::Websocket,
            xmlhttprequest: self.xmlhttprequest || kind == RequestType::Xmlhttprequest,
            font: self.font || kind == RequestType::Font,
            document: self.document || kind == RequestType::Document,
        }
    }

    /// The set without the kinds of another.
    pub fn without(self, other: KindSet) -> (r: KindSet)
        ensures
            r == self.minus(other),
    {
        KindSet {
            image: self.image && !other.image,
            media: self.media && !other.media,
            object: self.object && !other.object,
            other: self.other && !other.other,
            ping: self.ping && !other.ping,
            script: self.script && !other.script,
            stylesheet: self.stylesheet && !other.stylesheet,
            subdocument: self.subdocument && !other.subdocument,
            websocket: self.websocket && !other.websocket,
            xmlhttprequest: self.xmlhttprequest && !other.xmlhttprequest,
            font: self.font && !other.font,
            document: self.document && !other.document,
        }
    }
}

/// The options of a network rule that are either on or off.
#[derive(Clone, Copy, Debug, PartialEq, Eq, Structural)]
pub struct FilterMask {
    /// The kinds of request that the rule applies to.
    pub kinds: KindSet,
    /// The schemes that it applies to.
    pub http: bool,
    pub https: bool,
    /// Whether it applies to requests that leave, or stay in, the source's domain.
    pub third_party: bool,
    pub first_party: bool,
    /// Whether exceptions have no force against it.
    pub important: bool,
    /// Whether letter case counts.
    pub match_case: bool,
    /// The ends of the address that the pattern is tied to.
    pub left_anchor: bool,
    pub right_anchor: bool,
    /// Whether the pattern starts at a label of the host name.
    pub hostname_anchor: bool,
    /// Whether the pattern is a regular expression.
    pub regex: bool,
    /// What the rule does instead of blocking.
    pub exception: bool,
    pub csp: bool,
    pub generic_hide: bool,
    /// Whether the rule takes back an equal rule.
    pub bad_filter: bool,
    /// Whether the rule names a resource to answer with, but does not block.
    pub redirect_only: bool,
}

impl FilterMask {
    /// Whether a rule with these options applies to requests of a kind. Every
    /// exception applies to documents.
    pub open spec fn allows(self, kind: RequestType) -> bool {
        self.kinds.has(kind) || (kind == RequestType::Document && self.exception)
    }

    /// Whether a rule with these options applies to requests of a kind.
    pub fn check_kind(&self, kind: RequestType) -> (r: bool)
        ensures
            r == self.allows(kind),
    {
        self.kinds.contains(kind) || (kind == RequestType::Document && self.exception)
    }
}

/// A network rule.
#[verifier::ext_equal]
pub struct NetworkRule {
    pub mask: FilterMask,
    /// The patterns, of which one has to match.
    pub patterns: Seq<Seq<char>>,
    /// The domains that a source has to belong to; none for any source.
    pub domains: Seq<Seq<char>>,
    /// The domains that a source must not belong to.
    pub not_domains: Seq<Seq<char>>,
    /// The name of the resource to answer with.
    pub redirect: Option<Seq<char>>,
    /// The content security policy to add.
    pub csp: Option<Seq<char>>,
    /// The tag that has to be enabled for the rule to be in force.
    pub tag: Option<Seq<char>>,
    /// The line that the rule was read from, where it was kept.
    pub raw_line: Option<Seq<char>>,
}

/// The host name `host` is `domain` or lies under it.
pub open spec fn within(host: Seq<char>, domain: Seq<char>) -> bool {
    ||| host == domain
    ||| {
        &&& domain.len() < host.len()
        &&& domain.is_suffix_of(host)
        &&& host[host.len() - domain.len() - 1] == '.'
    }
}

/// The expression that a regular expression rule is matched by.
pub open spec fn expression(mask: FilterMask, pattern: Seq<char>) -> Seq<char> {
    if mask.match_case {
        pattern
    } else {
        "(?i)"@ + pattern
    }
}

/// A pattern matches the address of a request.
pub open spec fn pattern_matches(
    mask: FilterMask,
    pattern: Seq<char>,
    request: RequestModel,
) -> bool {
    let address = if mask.match_case {
        request.address
    } else {
        lower(request.address)
    };
    let hosted = if mask.match_case {
        request.hosted
    } else {
        lower(request.hosted)
    };
    if mask.regex {
        regex_verdict(expression(mask, pattern), address) == Some(true)
    } else if mask.hostname_anchor {
        covers_host(pattern, request.hostname, hosted, mask.right_anchor)
    } else if mask.left_anchor {
        covers(pattern, address, mask.right_anchor)
    } else {
        stands_in(pattern, address, mask.right_anchor)
    }
}

impl NetworkRule {
    /// The options of the rule admit the request.
    pub open spec fn admits(self, request: RequestModel) -> bool {
        let source = request.source_hostname;
        &&& self.mask.allows(request.request_type)
        &&& request.is_https ==> self.mask.https
        &&& request.is_http ==> self.mask.http
        &&& request.third_party == Some(true) ==> self.mask.third_party
        &&& request.third_party == Some(false) ==> self.mask.first_party
        &&& source.len() > 0 && self.domains.len() > 0 ==> exists|i: int|
            0 <= i < self.domains.len() && within(source, #[trigger] self.domains[i])
        &&& source.len() > 0 ==> forall|i: int|
            0 <= i < self.not_domains.len() ==> !within(source, #[trigger] self.not_domains[i])
    }

    /// The rule applies to the request: its options admit it and one of its
    /// patterns matches the address.
    pub open spec fn matches(self, request: RequestModel) -> bool {
        &&& self.admits(request)
        &&& exists|i: int|
            0 <= i < self.patterns.len() && pattern_matches(
                self.mask,
                #[trigger] self.patterns[i],
                request,
            )
    }

    /// The rule is in force: it has no tag, or its tag is enabled.
    pub open spec fn in_force(self, tags: Set<Seq<char>>) -> bool {
        self.tag matches Some(tag) ==> tags.contains(tag)
    }

    /// The rule without its patterns and its line: what rules that differ in
    /// their patterns alone have in common.
    pub open spec fn frame(self) -> NetworkRule {
        NetworkRule { patterns: Seq::empty(), raw_line: None, ..self }
    }

    /// How the rule is shown: by its line, or by a fixed word where that was not kept.
    pub open spec fn shown(self) -> Seq<char> {
        match self.raw_line {
            Some(line) => line,
            None => "NetworkFilter"@,
        }
    }
}

/// A network rule.
#[derive(Debug)]
pub struct NetworkFilter {
    pub mask: FilterMask,
    pub patterns: Vec<Vec<char>>,
    pub domains: Vec<Vec<char>>,
    pub not_domains: Vec<Vec<char>>,
    pub redirect: Option<String>,
    pub csp: Option<String>,
    pub tag: Option<String>,
    pub raw_line: Option<String>,
}

impl View for NetworkFilter {
    type V = NetworkRule;

    open spec fn view(&self) -> NetworkRule {
        NetworkRule {
            mask: self.mask,
            patterns: texts(self.patterns@),
            domains: texts(self.domains@),
            not_domains: texts(self.not_domains@),
            redirect: opt_text(self.redirect),
            csp: opt_text(self.csp),
            tag: opt_text(self.tag),
            raw_line: opt_text(self.raw_line),
        }
    }
}

/// The rules that a list of filters holds.
pub open spec fn rules(filters: Seq<NetworkFilter>) -> Seq<NetworkRule> {
    filters.map_values(|f: NetworkFilter| f@)
}

/// Whether the host name `host` is `domain` or lies under it.
pub fn is_within(host: &[char], domain: &[char]) -> (r: bool)
    ensures
        r == within(host@, domain@),
{
    if domain.len() > host.len() {
        return false;
    }
    let start: usize = host.len() - domain.len();
    let end = vstd::slice::slice_subrange(host, start, host.len());
    if !same_text(end, domain) {
        assert(!(domain@.is_suffix_of(host@)));
        return false;
    }
    if start == 0 {
        assert(end@ =~= host@);
        true
    } else {
        host[start - 1] == '.'
    }
}

/// Whether `host` lies within one of the domains.
pub fn is_within_any(host: &[char], domains: &Vec<Vec<char>>) -> (r: bool)
    ensures
        r == exists|i: int|
            0 <= i < texts(domains@).len() && within(host@, #[trigger] texts(domains@)[i]),
{
    let mut i: usize = 0;
    while i < domains.len()
        invariant
            i <= domains@.len(),
            forall|j: int| 0 <= j < i ==> !within(host@, #[trigger] texts(domains@)[j]),
        decreases domains@.len() - i,
    {
        if is_within(host, domains[i].as_slice()) {
            assert(within(host@, texts(domains@)[i as int]));
            return true;
        }
        i += 1;
    }
    false
}

/// A copy of a list of character vectors.
pub fn copy_texts(list: &Vec<Vec<char>>) -> (r: Vec<Vec<char>>)
    ensures
        texts(r@) == texts(list@),
{
    let mut r: Vec<Vec<char>> = Vec::new();
    let mut i: usize = 0;
    while i < list.len()
        invariant
            i <= list@.len(),
            texts(r@) == texts(list@).take(i as int),
        decreases list@.len() - i,
    {
        let ghost before = texts(r@);
        r.push(slice_to_vec(list[i].as_slice()));
        assert(texts(r@) =~= before.push(list@[i as int]@));
        i += 1;
        assert(texts(r@) =~= texts(list@).take(i as int));
    }
    assert(texts(list@).take(i as int) =~= texts(list@));
    r
}

/// Whether two lists hold the same texts in the same order.
pub fn same_texts(a: &Vec<Vec<char>>, b: &Vec<Vec<char>>) -> (r: bool)
    ensures
        r == (texts(a@) == texts(b@)),
{
    if a.len() != b.len() {
        assert(texts(a@).len() != texts(b@).len());
        return false;
    }
    let mut i: usize = 0;
    while i < a.len()
        invariant
            i <= a@.len() == b@.len(),
            forall|j: int| 0 <= j < i ==> a@[j]@ == b@[j]@,
        decreases a@.len() - i,
    {
        if !same_text(a[i].as_slice(), b[i].as_slice()) {
            assert(texts(a@)[i as int] != texts(b@)[i as int]);
            return false;
        }
        i += 1;
    }
    assert(texts(a@) =~= texts(b@));
    true
}

/// Whether two optional strings hold the same text, or none.
pub fn same_opt(a: &Option<String>, b: &Option<String>) -> (r: bool)
    ensures
        r == (opt_text(*a) == opt_text(*b)),
{
    match (a, b) {
        (Some(a), Some(b)) => *a == *b,
        (None, None) => true,
        _ => false,
    }
}

impl NetworkFilter {
    fn check_options(&self, request: &Request) -> (r: bool)
        ensures
            r == self@.admits(request@),
    {
        if !self.mask.check_kind(request.request_type) || (request.is_https && !self.mask.https)
            || (request.is_http && !self.mask.http) {
            return false;
        }
        match request.third_party {
            Some(true) => if !self.mask.third_party {
                return false;
            },
            Some(false) => if !self.mask.first_party {
                return false;
            },
            None => {},
        }
        if request.source_hostname.len() > 0 {
            let source = request.source_hostname.as_slice();
            assert(self@.domains == texts(self.domains@));
            assert(self@.not_domains == texts(self.not_domains@));
            if self.domains.len() > 0 && !is_within_any(source, &self.domains) {
                return false;
            }
            if is_within_any(source, &self.not_domains) {
                return false;
            }
        }
        true
    }

    fn check_pattern(&self, pattern: &[char], request: &Request) -> (r: bool)
        requires
            request.wf(),
        ensures
            r == pattern_matches(self@.mask, pattern@, request@),
    {
        let address = if self.mask.match_case {
            request.address.as_slice()
        } else {
            request.lower_address.as_slice()
        };
        let hosted = if self.mask.match_case {
            request.hosted.as_slice()
        } else {
            request.lower_hosted.as_slice()
        };
        if self.mask.regex {
            let text = string_of(address);
            let body = string_of(pattern);
            let verdict = if self.mask.match_case {
                regex_matches(body.as_str(), text.as_str())
            } else {
                let expression = "(?i)".to_owned().concat(body.as_str());
                regex_matches(expression.as_str(), text.as_str())
            };
            match verdict {
                Some(found) => found,
                None => false,
            }
        } else if self.mask.hostname_anchor {
            is_host_covered(pattern, request.hostname.as_slice(), hosted, self.mask.right_anchor)
        } else if self.mask.left_anchor {
            is_covered(pattern, address, self.mask.right_anchor)
        } else {
            is_covered_later(pattern, address, self.mask.right_anchor)
        }
    }

    /// Whether the rule applies to the request.
    pub fn matches(&self, request: &Request) -> (r: bool)
        requires
            request.wf(),
        ensures
            r == self@.matches(request@),
    {
        if !self.check_options(request) {
            return false;
        }
        let mut i: usize = 0;
        while i < self.patterns.len()
            invariant
                i <= self.patterns@.len(),
                request.wf(),
                self@.admits(request@),
                forall|j: int|
                    0 <= j < i ==> !pattern_matches(
                        self@.mask,
                        #[trigger] self@.patterns[j],
                        request@,
                    ),
            decreases self.patterns@.len() - i,
        {
            if self.check_pattern(self.patterns[i].as_slice(), request) {
                assert(pattern_matches(self@.mask, self@.patterns[i as int], request@));
                return true;
            }
            i += 1;
        }
        false
    }

    /// A copy of the rule.
    pub fn copy(&self) -> (r: NetworkFilter)
        ensures
            r@ == self@,
    {
        NetworkFilter {
            mask: self.mask,
            patterns: copy_texts(&self.patterns),
            domains: copy_texts(&self.domains),
            not_domains: copy_texts(&self.not_domains),
            redirect: self.redirect.clone(),
            csp: self.csp.clone(),
            tag: self.tag.clone(),
            raw_line: self.raw_line.clone(),
        }
    }

    /// Whether two rules differ at most in their patterns and their lines.
    pub fn same_frame(&self, other: &NetworkFilter) -> (r: bool)
        ensures
            r == (self@.frame() == other@.frame()),
    {
        let r = self.mask == other.mask && same_texts(&self.domains, &other.domains) && same_texts(
            &self.not_domains,
            &other.not_domains,
        ) && same_opt(&self.redirect, &other.redirect) && same_opt(&self.csp, &other.csp)
            && same_opt(&self.tag, &other.tag);
        assert(r ==> self@.frame() =~= other@.frame());
        r
    }

    /// How the rule is shown.
    pub fn show(&self) -> (r: String)
        ensures
            r@ == self@.shown(),
    {
        match &self.raw_line {
            Some(line) => line.clone(),
            None => "NetworkFilter".to_owned(),
        }
    }
}

} // verus!

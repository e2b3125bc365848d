//! Network requests, as the rules see them.

use vstd::prelude::*;
use vstd::slice::{slice_subrange, slice_to_vec};

use crate::text::{chars_of, extend, find, find_text, lower, reads, search, to_lower};
use crate::url_parser::{differ_in_domain, domain_of, parse, parse_url, ParsedUrl, UrlParts};

verus! {

/// The kind of resource that a request asks for.
#[derive(Clone, Copy, Debug, PartialEq, Eq, Structural)]
pub enum RequestType {
    Csp,
    Document,
    Font,
    Image,
    Media,
    Object,
    Other,
    Ping,
    Script,
    Stylesheet,
    Subdocument,
    Websocket,
    Xmlhttprequest,
}

/// The kind of resource that a name stands for; `Other` for an unknown name.
pub open spec fn request_type_of(name: Seq<char>) -> RequestType {
    if name == "beacon"@ || name == "ping"@ {
        RequestType::Ping
    } else if name == "csp_report"@ {
        RequestType::Csp
    } else if name == "document"@ || name == "main_frame"@ {
        RequestType::Document
    } else if name == "font"@ {
        RequestType::Font
    } else if name == "image"@ || name == "imageset"@ {
        RequestType::Image
    } else if name == "media"@ {
        RequestType::Media
    } else if name == "object"@ || name == "object_subrequest"@ {
        RequestType::Object
    } else if name == "script"@ {
        RequestType::Script
    } else if name == "stylesheet"@ {
        RequestType::Stylesheet
    } else if name == "sub_frame"@ || name == "subdocument"@ {
        RequestType::Subdocument
    } else if name == "websocket"@ {
        RequestType::Websocket
    } else if name == "xhr"@ || name == "xmlhttprequest"@ {
        RequestType::Xmlhttprequest
    } else {
        RequestType::Other
    }
}

impl RequestType {
    /// The kind of resource that a name stands for.
    pub fn from_name(name: &str) -> (r: RequestType)
        ensures
            r == request_type_of(name@),
    {
        let chars = chars_of(name);
        let n = chars.as_slice();
        if reads(n, "beacon") || reads(n, "ping") {
            RequestType::Ping
        } else if reads(n, "csp_report") {
            RequestType::Csp
        } else if reads(n, "document") || reads(n, "main_frame") {
            RequestType::Document
        } else if reads(n, "font") {
            RequestType::Font
        } else if reads(n, "image") || reads(n, "imageset") {
            RequestType::Image
        } else if reads(n, "media") {
            RequestType::Media
        } else if reads(n, "object") || reads(n, "object_subrequest") {
            RequestType::Object
        } else if reads(n, "script") {
            RequestType::Script
        } else if reads(n, "stylesheet") {
            RequestType::Stylesheet
        } else if reads(n, "sub_frame") || reads(n, "subdocument") {
            RequestType::Subdocument
        } else if reads(n, "websocket") {
            RequestType::Websocket
        } else if reads(n, "xhr") || reads(n, "xmlhttprequest") {
            RequestType::Xmlhttprequest
        } else {
            RequestType::Other
        }
    }
}

/// What rules can ask of a request.
#[verifier::ext_equal]
pub struct RequestModel {
    pub request_type: RequestType,
    pub is_http: bool,
    pub is_https: bool,
    /// Whether rules apply at all: they do to `http`, `https`, `ws` and `wss`.
    pub is_supported: bool,
    /// Whether the request leaves the domain of its source, where that is known.
    pub third_party: Option<bool>,
    /// The address, letter case kept.
    pub address: Seq<char>,
    pub hostname: Seq<char>,
    /// The host name and what follows it in the address, letter case kept.
    pub hosted: Seq<char>,
    /// The host name of the source; empty where it is not known.
    pub source_hostname: Seq<char>,
}

/// The request to an address with the given parts. Without a scheme it counts
/// as `https`; under a web socket scheme its kind is that of a web socket.
pub open spec fn request_model(
    kind: Seq<char>,
    scheme: Seq<char>,
    address: Seq<char>,
    hostname: Seq<char>,
    hosted: Seq<char>,
    source_hostname: Seq<char>,
    third_party: Option<bool>,
) -> RequestModel {
    let web_socket = scheme == "ws"@ || scheme == "wss"@;
    RequestModel {
        request_type: if web_socket {
            RequestType::Websocket
        } else {
            request_type_of(kind)
        },
        is_http: scheme == "http"@,
        is_https: scheme.len() == 0 || scheme == "https"@,
        is_supported: scheme.len() == 0 || scheme == "http"@ || scheme == "https"@ || web_socket,
        third_party,
        address,
        hostname,
        hosted,
        source_hostname,
    }
}

/// The request to the address with the given parts.
pub open spec fn request_to(
    url: UrlParts,
    kind: Seq<char>,
    source_hostname: Seq<char>,
    third_party: Option<bool>,
) -> RequestModel {
    request_model(
        kind,
        url.scheme,
        url.address(),
        url.host,
        url.hosted(),
        source_hostname,
        third_party,
    )
}

/// The request for `url` that a page at `source_url` makes; none where `url` is
/// no address with a host. Where `source_url` is none, the source is unknown.
pub open spec fn request_from_urls(
    url: Seq<char>,
    source_url: Seq<char>,
    kind: Seq<char>,
) -> Option<RequestModel> {
    match parse_url(url) {
        None => None,
        Some(parts) => match parse_url(source_url) {
            None => Some(request_to(parts, kind, Seq::empty(), None)),
            Some(source) => Some(
                request_to(
                    parts,
                    kind,
                    source.host,
                    Some(domain_of(source.host) != domain_of(parts.host)),
                ),
            ),
        },
    }
}

/// The request that loads the page at `url`; none where that is no address with a host.
pub open spec fn request_from_url(url: Seq<char>) -> Option<RequestModel> {
    match parse_url(url) {
        None => None,
        Some(parts) => Some(request_to(parts, "document"@, Seq::empty(), None)),
    }
}

/// What precedes the first colon, in lower case; empty where there is none.
pub open spec fn scheme_before_colon(url: Seq<char>) -> Seq<char> {
    match url.index_of_first(':') {
        Some(i) => lower(url).take(i),
        None => Seq::empty(),
    }
}

/// The host name and what follows its first occurrence in the address.
pub open spec fn hosted_at(url: Seq<char>, hostname: Seq<char>) -> Seq<char> {
    match find_text(lower(url), hostname) {
        Some(i) => hostname + url.skip(i + hostname.len()),
        None => hostname,
    }
}

/// Whether a request from one host to another leaves the source's domain, where
/// the caller has not said so; unknown where the source is.
pub open spec fn third_party_between(
    hostname: Seq<char>,
    source_hostname: Seq<char>,
    told: Option<bool>,
) -> Option<bool> {
    if told is Some {
        told
    } else if source_hostname.len() == 0 {
        None
    } else {
        Some(domain_of(source_hostname) != domain_of(hostname))
    }
}

/// The request for `url` whose host names the caller has found.
pub open spec fn request_from_hostnames(
    url: Seq<char>,
    hostname: Seq<char>,
    source_hostname: Seq<char>,
    kind: Seq<char>,
    third_party: Option<bool>,
) -> RequestModel {
    request_model(
        kind,
        scheme_before_colon(url),
        url,
        hostname,
        hosted_at(url, hostname),
        source_hostname,
        third_party_between(hostname, source_hostname, third_party),
    )
}

/// Why no request can be made of an address.
#[derive(Clone, Copy, Debug, PartialEq, Eq, Structural)]
pub enum RequestError {
    HostnameParseError,
}

/// A network request.
pub struct Request {
    pub request_type: RequestType,
    pub is_http: bool,
    pub is_https: bool,
    pub is_supported: bool,
    pub third_party: Option<bool>,
    pub address: Vec<char>,
    pub hostname: Vec<char>,
    pub hosted: Vec<char>,
    pub source_hostname: Vec<char>,
    /// The address in lower case.
    pub lower_address: Vec<char>,
    /// The host name and what follows it, in lower case.
    pub lower_hosted: Vec<char>,
}

impl View for Request {
    type V = RequestModel;

    open spec fn view(&self) -> RequestModel {
        RequestModel {
            request_type: self.request_type,
            is_http: self.is_http,
            is_https: self.is_https,
            is_supported: self.is_supported,
            third_party: self.third_party,
            address: self.address@,
            hostname: self.hostname@,
            hosted: self.hosted@,
            source_hostname: self.source_hostname@,
        }
    }
}

impl Request {
    /// The lower-case forms are those of the address and of the hosted part.
    pub open spec fn wf(&self) -> bool {
        &&& self.lower_address@ == lower(self.address@)
        &&& self.lower_hosted@ == lower(self.hosted@)
    }

    fn from_detailed_parameters(
        kind: &str,
        scheme: &[char],
        address: Vec<char>,
        hostname: Vec<char>,
        hosted: Vec<char>,
        source_hostname: Vec<char>,
        third_party: Option<bool>,
    ) -> (r: Request)
        ensures
            r.wf(),
            r@ == request_model(
                kind@,
                scheme@,
                address@,
                hostname@,
                hosted@,
                source_hostname@,
                third_party,
            ),
    {
        let is_http = reads(scheme, "http");
        let is_https = scheme.len() == 0 || reads(scheme, "https");
        let web_socket = reads(scheme, "ws") || reads(scheme, "wss");
        let request_type = if web_socket {
            RequestType::Websocket
        } else {
            RequestType::from_name(kind)
        };
        let lower_address = to_lower(address.as_slice());
        let lower_hosted = to_lower(hosted.as_slice());
        Request {
            request_type,
            is_http,
            is_https,
            is_supported: is_http || is_https || web_socket,
            third_party,
            address,
            hostname,
            hosted,
            source_hostname,
            lower_address,
            lower_hosted,
        }
    }

    fn to_parsed(
        url: &ParsedUrl,
        kind: &str,
        source_hostname: Vec<char>,
        third_party: Option<bool>,
    ) -> (r: Request)
        ensures
            r.wf(),
            r@ == request_to(url@, kind@, source_hostname@, third_party),
    {
        Request::from_detailed_parameters(
            kind,
            url.scheme.as_slice(),
            url.address(),
            slice_to_vec(url.host.as_slice()),
            url.hosted(),
            source_hostname,
            third_party,
        )
    }

    /// The request for `url`, of the kind `request_type`, that a page at
    /// `source_url` makes.
    pub fn from_urls(url: &str, source_url: &str, request_type: &str) -> (r: Result<
        Request,
        RequestError,
    >)
        ensures
            match r {
                Ok(request) => request.wf() && request_from_urls(url@, source_url@, request_type@)
                    == Some(request@),
                Err(_) => request_from_urls(url@, source_url@, request_type@) is None,
            },
    {
        match parse(url) {
            None => Err(RequestError::HostnameParseError),
            Some(parts) => match parse(source_url) {
                None => {
                    let source: Vec<char> = Vec::new();
                    Ok(Request::to_parsed(&parts, request_type, source, None))
                },
                Some(source) => {
                    let differ = differ_in_domain(source.host.as_slice(), parts.host.as_slice());
                    Ok(Request::to_parsed(&parts, request_type, source.host, Some(differ)))
                },
            },
        }
    }

    /// The request that loads the page at `url`.
    pub fn from_url(url: &str) -> (r: Result<Request, RequestError>)
        ensures
            match r {
                Ok(request) => request.wf() && request_from_url(url@) == Some(request@),
                Err(_) => request_from_url(url@) is None,
            },
    {
        match parse(url) {
            None => Err(RequestError::HostnameParseError),
            Some(parts) => {
                let source: Vec<char> = Vec::new();
                Ok(Request::to_parsed(&parts, "document", source, None))
            },
        }
    }

    /// The request for `url` whose host names the caller has found.
    pub fn from_urls_with_hostname(
        url: &str,
        hostname: &str,
        source_hostname: &str,
        request_type: &str,
        third_party_request: Option<bool>,
    ) -> (r: Request)
        ensures
            r.wf(),
            r@ == request_from_hostnames(
                url@,
                hostname@,
                source_hostname@,
                request_type@,
                third_party_request,
            ),
    {
        let address = chars_of(url);
        let host = chars_of(hostname);
        let source = chars_of(source_hostname);
        let lowered = to_lower(address.as_slice());
        let scheme = match find(address.as_slice(), ':') {
            Some(i) => {
                assert(lower(address@).take(i as int) =~= lower(address@).subrange(0, i as int));
                slice_to_vec(slice_subrange(lowered.as_slice(), 0, i))
            },
            None => Vec::new(),
        };
        let mut hosted = slice_to_vec(host.as_slice());
        match search(lowered.as_slice(), host.as_slice(), 0) {
            Some(i) => {
                let n: usize = address.len();
                let tail = slice_subrange(address.as_slice(), i + host.len(), n);
                assert(tail@ =~= address@.skip(i + host@.len()));
                extend(&mut hosted, tail);
            },
            None => {},
        }
        let third_party = match third_party_request {
            Some(told) => Some(told),
            None => if source.len() == 0 {
                None
            } else {
                Some(differ_in_domain(source.as_slice(), host.as_slice()))
            },
        };
        Request::from_detailed_parameters(
            request_type,
            scheme.as_slice(),
            address,
            host,
            hosted,
            source,
            third_party,
        )
    }
}

} // verus!

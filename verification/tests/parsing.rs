//! Lines that stand for no rule, and why.

use adblock::filters::cosmetic::{CosmeticFilter, CosmeticFilterError};
use adblock::filters::network::NetworkFilter;
use adblock::filters::network_parser::NetworkFilterError;
use adblock::lists::{
    parse_filter, FilterFormat, FilterParseError, FilterSet, ParseOptions, ParsedFilter,
};
use adblock::request::{Request, RequestError, RequestType};

fn network_error(line: &str) -> Option<NetworkFilterError> {
    NetworkFilter::parse(line, true).err()
}

fn cosmetic_error(line: &str) -> Option<CosmeticFilterError> {
    CosmeticFilter::parse(line).err()
}

#[test]
fn options_that_cannot_be_negated() {
    assert_eq!(network_error("a$~badfilter"), Some(NetworkFilterError::NegatedBadFilter));
    assert_eq!(network_error("a$~important"), Some(NetworkFilterError::NegatedImportant));
    assert_eq!(network_error("a$~match-case"), Some(NetworkFilterError::NegatedMatchCase));
    assert_eq!(network_error("a$~tag=x"), Some(NetworkFilterError::NegatedTag));
    assert_eq!(network_error("a$~redirect=x"), Some(NetworkFilterError::NegatedRedirection));
    assert_eq!(network_error("a$~csp=x"), Some(NetworkFilterError::NegatedCsp));
    assert_eq!(network_error("@@a$~generichide"), Some(NetworkFilterError::NegatedGenericHide));
    assert_eq!(network_error("a$~document"), Some(NetworkFilterError::NegatedDocument));
    assert_eq!(network_error("a$~all"), Some(NetworkFilterError::NegatedAll));
}

#[test]
fn options_that_make_no_sense() {
    assert_eq!(network_error("a$redirect="), Some(NetworkFilterError::EmptyRedirection));
    assert_eq!(network_error("a$nonsense"), Some(NetworkFilterError::UnrecognisedOption));
    assert_eq!(
        network_error("a$generichide"),
        Some(NetworkFilterError::GenericHideWithoutException),
    );
}

#[test]
fn the_first_wrong_option_is_reported() {
    assert_eq!(network_error("a$nonsense,~all"), Some(NetworkFilterError::UnrecognisedOption));
    assert_eq!(network_error("a$~all,nonsense"), Some(NetworkFilterError::NegatedAll));
}

#[test]
fn hosts_that_are_no_names() {
    assert_eq!(
        network_error("||\u{fffd}.com^"),
        Some(NetworkFilterError::InvalidHostname),
    );
    assert_eq!(
        NetworkFilter::parse_hosts_style("a/b", true).err(),
        Some(NetworkFilterError::InvalidHostname),
    );
}

#[test]
fn parts_of_a_network_rule() {
    let rule = NetworkFilter::parse("@@||Example.com/Path^$script,domain=A.com|~b.com,tag=t", true);
    let rule = rule.unwrap();
    assert!(rule.mask.exception && rule.mask.hostname_anchor);
    assert!(!rule.mask.left_anchor && !rule.mask.right_anchor && !rule.mask.regex);
    assert!(rule.mask.kinds.contains(RequestType::Script));
    assert!(!rule.mask.kinds.contains(RequestType::Image));
    assert_eq!(rule.patterns, vec!["example.com/path^".chars().collect::<Vec<char>>()]);
    assert_eq!(rule.domains, vec!["a.com".chars().collect::<Vec<char>>()]);
    assert_eq!(rule.not_domains, vec!["b.com".chars().collect::<Vec<char>>()]);
    assert_eq!(rule.tag, Some("t".to_owned()));
    assert_eq!(
        rule.raw_line,
        Some("@@||Example.com/Path^$script,domain=A.com|~b.com,tag=t".to_owned()),
    );
}

#[test]
fn cosmetic_lines_that_are_wrong() {
    assert_eq!(cosmetic_error("no sharp here"), Some(CosmeticFilterError::MissingSharp));
    assert_eq!(cosmetic_error("example.com##"), Some(CosmeticFilterError::EmptySelector));
    assert_eq!(cosmetic_error("#@#.ad"), Some(CosmeticFilterError::GenericUnhide));
    assert_eq!(
        cosmetic_error("##.ad:style(color: red)"),
        Some(CosmeticFilterError::GenericStyle),
    );
    assert_eq!(
        cosmetic_error("##+js(noop)"),
        Some(CosmeticFilterError::GenericScriptInject),
    );
    assert_eq!(
        cosmetic_error("example.com#?#.ad"),
        Some(CosmeticFilterError::UnsupportedSyntax),
    );
    assert_eq!(
        cosmetic_error("\u{fffd}.com##.ad"),
        Some(CosmeticFilterError::InvalidHostname),
    );
}

#[test]
fn lines_without_a_rule() {
    let standard = ParseOptions::default();
    let error = |line: &str| parse_filter(line, true, standard).err();
    assert_eq!(error("   "), Some(FilterParseError::Empty));
    assert_eq!(error("! comment"), Some(FilterParseError::Unsupported));
    assert_eq!(error("[Adblock Plus 2.0]"), Some(FilterParseError::Unsupported));
    assert_eq!(
        error("a$nonsense"),
        Some(FilterParseError::Network(NetworkFilterError::UnrecognisedOption)),
    );
    assert_eq!(
        error("#@#.ad"),
        Some(FilterParseError::Cosmetic(CosmeticFilterError::GenericUnhide)),
    );
    let hosts = ParseOptions { format: FilterFormat::Hosts };
    assert_eq!(
        parse_filter("127.0.0.1 localhost", true, hosts).err(),
        Some(FilterParseError::Unsupported),
    );
    assert_eq!(
        parse_filter("one two three", true, hosts).err(),
        Some(FilterParseError::Unsupported),
    );
}

#[test]
fn lines_are_sorted_by_what_they_are() {
    let standard = ParseOptions::default();
    assert!(matches!(parse_filter(" /ad ", true, standard), Ok(ParsedFilter::Network(_))));
    assert!(matches!(parse_filter("a.com##.ad", true, standard), Ok(ParsedFilter::Cosmetic(_))));
    assert!(matches!(
        parse_filter("||a.com/x#y", true, standard),
        Ok(ParsedFilter::Network(_))
    ));
}

#[test]
fn sets_report_what_they_refuse() {
    let mut set = FilterSet::new(false);
    assert_eq!(set.add_filter("/ad", ParseOptions::default()), Ok(()));
    assert_eq!(
        set.add_filter("a$~all", ParseOptions::default()),
        Err(FilterParseError::Network(NetworkFilterError::NegatedAll)),
    );
    assert_eq!(set.network_filters.len(), 1);
    assert_eq!(set.cosmetic_filters.len(), 0);
    assert_eq!(set.network_filters[0].raw_line, None);
}

#[test]
fn requests_need_a_host() {
    assert_eq!(
        Request::from_urls("example.com", "https://a.org", "script").err(),
        Some(RequestError::HostnameParseError),
    );
    assert_eq!(Request::from_url("https://").err(), Some(RequestError::HostnameParseError));
    assert_eq!(Request::from_url("").err(), Some(RequestError::HostnameParseError));
}

#[test]
fn parts_of_a_request() {
    let request = Request::from_urls(
        "HTTPS://user@WWW.Example.co.uk:8080/Path?Q", "http://example.co.uk/", "xhr",
    );
    let request = request.ok().unwrap();
    assert_eq!(request.request_type, RequestType::Xmlhttprequest);
    assert!(request.is_https && !request.is_http && request.is_supported);
    assert_eq!(request.third_party, Some(false));
    assert_eq!(request.hostname.iter().collect::<String>(), "www.example.co.uk");
    assert_eq!(
        request.address.iter().collect::<String>(),
        "https://user@www.example.co.uk:8080/Path?Q",
    );
    let other = Request::from_urls("http://other.co.uk/", "http://example.co.uk/", "").ok().unwrap();
    assert_eq!(other.third_party, Some(true));
    assert_eq!(other.request_type, RequestType::Other);
}

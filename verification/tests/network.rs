//! Network rules: what is blocked, let through, redirected or given a policy.

use adblock::blocker::{BlockerResult, Redirection};
use adblock::engine::Engine;
use adblock::filters::cosmetic::{CosmeticFilter, CosmeticFilterError};
use adblock::filters::network::NetworkFilter;
use adblock::filters::network_parser::NetworkFilterError;
use adblock::lists::{FilterFormat, FilterSet, ParseOptions};
use adblock::resources::{MimeType, Resource, ResourceType};

fn lines(list: &[&str]) -> Vec<String> {
    list.iter().map(|s| s.to_string()).collect()
}

fn engine(list: &[&str]) -> Engine {
    Engine::from_rules_debug(&lines(list), Default::default())
}

fn blocks(list: &[&str], url: &str, source: &str, kind: &str) -> bool {
    engine(list).check_network_urls(url, source, kind).matched
}

fn text_resource(name: &str, aliases: &[&str], text: &str) -> Resource {
    Resource {
        name: name.to_owned(),
        aliases: lines(aliases),
        kind: ResourceType::Mime(MimeType::TextPlain),
        content: base64::encode(text),
    }
}

#[test]
fn important_beats_exception() {
    let engine = engine(&["||example.com^$important", "@@||example.com^"]);
    let result = engine.check_network_urls("https://example.com/x.js", "https://a.org", "script");
    assert!(result.matched);
    assert!(result.important);
    assert_eq!(result.exception, None);
    assert_eq!(result.filter, Some("||example.com^$important".to_owned()));
}

#[test]
fn exception_lets_through() {
    let engine = engine(&["||example.com^", "@@/x.js"]);
    let result = engine.check_network_urls("https://example.com/x.js", "https://a.org", "script");
    assert!(!result.matched);
    assert!(!result.important);
    assert_eq!(result.exception, Some("@@/x.js".to_owned()));
    assert_eq!(result.filter, Some("||example.com^".to_owned()));
    assert!(engine.check_network_urls("https://example.com/y.js", "https://a.org", "script").matched);
}

#[test]
fn exception_alone_is_not_reported() {
    let engine = engine(&["@@/x.js"]);
    let result = engine.check_network_urls("https://example.com/x.js", "https://a.org", "script");
    assert_eq!(result, BlockerResult::default());
}

#[test]
fn subset_check_takes_earlier_match_into_account() {
    let engine = engine(&["@@||example.com/ok"]);
    let check = |url: &str, matched: bool, force: bool| {
        engine.check_network_urls_with_hostnames_subset(
            url, "example.com", "a.org", "script", None, matched, force,
        )
    };
    let passed = check("https://example.com/ok", true, false);
    assert!(!passed.matched);
    assert!(passed.exception.is_some());
    let blocked = check("https://example.com/no", true, false);
    assert!(blocked.matched);
    assert_eq!(blocked.filter, None);
    let unasked = check("https://example.com/ok", false, false);
    assert!(!unasked.matched);
    assert_eq!(unasked.exception, None);
    let forced = check("https://example.com/ok", false, true);
    assert!(!forced.matched);
    assert_eq!(forced.exception, Some("@@||example.com/ok".to_owned()));
}

#[test]
fn subset_check_still_finds_important_rules() {
    let engine = engine(&["||example.com^$important", "||example.com^", "@@||example.com^"]);
    let result = engine.check_network_urls_with_hostnames_subset(
        "https://example.com/", "example.com", "a.org", "script", None, true, true,
    );
    assert!(result.matched);
    assert!(result.important);
    assert_eq!(result.exception, None);
}

#[test]
fn unparsable_address_is_reported() {
    let result = engine(&["foo"]).check_network_urls("foo", "https://a.org", "script");
    assert_eq!(
        result,
        BlockerResult {
            matched: false,
            important: false,
            redirect: None,
            exception: None,
            filter: None,
            error: Some("Error parsing request".to_owned()),
        },
    );
}

#[test]
fn unsupported_scheme_passes() {
    let engine = engine(&["example"]);
    assert_eq!(
        engine.check_network_urls("ftp://example.com/a", "https://a.org", "other"),
        BlockerResult::default(),
    );
    assert!(engine.check_network_urls("wss://example.com/a", "https://a.org", "other").matched);
    assert!(engine.check_network_urls("HTTP://EXAMPLE.com/a", "https://a.org", "other").matched);
}

#[test]
fn web_socket_scheme_decides_the_kind() {
    assert!(blocks(&["||example.com^$websocket"], "ws://example.com/", "https://a.org", "other"));
    assert!(!blocks(&["||example.com^$websocket"], "http://example.com/", "https://a.org", "other"));
}

#[test]
fn host_anchor_takes_labels_whole() {
    let rules = ["||example.com^"];
    assert!(blocks(&rules, "https://example.com/", "https://a.org", "script"));
    assert!(blocks(&rules, "https://sub.example.com:80/", "https://a.org", "script"));
    assert!(!blocks(&rules, "https://notexample.com/", "https://a.org", "script"));
    assert!(!blocks(&rules, "https://example.com.evil.org/", "https://a.org", "script"));
    assert!(!blocks(&rules, "https://a.org/example.com/", "https://a.org", "script"));
}

#[test]
fn anchors_tie_patterns_to_the_ends() {
    assert!(blocks(&["|https://example"], "https://example.com/", "https://a.org", "script"));
    assert!(!blocks(&["|example"], "https://example.com/", "https://a.org", "script"));
    assert!(blocks(&["ad.js|"], "https://example.com/ad.js", "https://a.org", "script"));
    assert!(!blocks(&["ad.js|"], "https://example.com/ad.js?x", "https://a.org", "script"));
    assert!(blocks(
        &["|https://example.com/ad.js|"], "https://example.com/ad.js", "https://a.org", "script",
    ));
}

#[test]
fn wildcards_and_separators() {
    assert!(blocks(&["/ads/*/banner"], "https://x.com/ads/1/2/banner", "https://a.org", "image"));
    assert!(!blocks(&["/ads/*/banner"], "https://x.com/ads/banner", "https://a.org", "image"));
    assert!(blocks(&["^ad^"], "https://x.com/ad/y", "https://a.org", "image"));
    assert!(blocks(&["^ad^"], "https://x.com/ad", "https://a.org", "image"));
    assert!(!blocks(&["^ad^"], "https://x.com/adx", "https://a.org", "image"));
}

#[test]
fn many_wildcards_take_no_time() {
    let url = format!("https://x.com/{}", "a".repeat(2000));
    let source = "https://a.org";
    assert!(!blocks(&[&format!("{}b", "*a".repeat(400))], &url, source, "image"));
    assert!(blocks(&[&format!("{}|", "*a".repeat(400))], &url, source, "image"));
    assert!(blocks(&[&format!("|{}", "*".repeat(5000))], &url, source, "image"));
    assert!(blocks(&["/aa*aa*a^|"], &url, source, "image"));
    assert!(!blocks(&["/aa*^*a|"], &url, source, "image"));
}

#[test]
fn pieces_of_a_pattern_keep_their_order() {
    let source = "https://a.org";
    assert!(blocks(&["/ab*ab|"], "https://x.com/abab", source, "image"));
    assert!(!blocks(&["/ab*ab|"], "https://x.com/ab", source, "image"));
    assert!(!blocks(&["/ab*aba|"], "https://x.com/ababab", source, "image"));
    assert!(blocks(&["/a*b*c|"], "https://x.com/abcbc", source, "image"));
    assert!(blocks(&["|https:*/x.com^"], "https://x.com", source, "image"));
    assert!(blocks(&["||x.com*a^^"], "https://x.com/ba", source, "image"));
}

#[test]
fn letter_case_counts_on_demand() {
    assert!(blocks(&["/AdVert"], "https://x.com/aDvErT", "https://a.org", "image"));
    assert!(!blocks(&["/AdVert$match-case"], "https://x.com/advert", "https://a.org", "image"));
    assert!(blocks(&["/AdVert$match-case"], "https://x.com/AdVert", "https://a.org", "image"));
}

#[test]
fn regular_expressions_match_the_address() {
    assert!(blocks(&["/banner[0-9]+/"], "https://x.com/banner12", "https://a.org", "image"));
    assert!(blocks(&["/banner[0-9]+/"], "https://x.com/BANNER12", "https://a.org", "image"));
    assert!(!blocks(&["/banner[0-9]+/"], "https://x.com/banner", "https://a.org", "image"));
    assert!(!blocks(&["/banner([0-9]+/"], "https://x.com/banner([0-9]+", "https://a.org", "image"));
}

#[test]
fn parties_are_told_apart_by_domain() {
    let third = ["||cdn.co.uk^$third-party"];
    assert!(blocks(&third, "https://cdn.co.uk/a", "https://other.co.uk", "script"));
    assert!(!blocks(&third, "https://cdn.co.uk/a", "https://www.cdn.co.uk", "script"));
    let first = ["||cdn.co.uk^$~third-party"];
    assert!(!blocks(&first, "https://cdn.co.uk/a", "https://other.co.uk", "script"));
    assert!(blocks(&first, "https://cdn.co.uk/a", "https://www.cdn.co.uk", "script"));
    assert!(blocks(&third, "https://cdn.co.uk/a", "", "script"));
    assert!(blocks(&first, "https://cdn.co.uk/a", "", "script"));
}

#[test]
fn the_caller_can_tell_the_party() {
    let engine = engine(&["||cdn.com^$3p"]);
    let check = |told: Option<bool>| {
        engine
            .check_network_urls_with_hostnames(
                "https://cdn.com/a", "cdn.com", "www.cdn.com", "script", told,
            )
            .matched
    };
    assert!(!check(None));
    assert!(check(Some(true)));
    assert!(!check(Some(false)));
}

#[test]
fn source_domains_are_asked_for_and_ruled_out() {
    let rules = ["/ad$domain=example.com|~ok.example.com"];
    assert!(blocks(&rules, "https://x.com/ad", "https://example.com", "script"));
    assert!(blocks(&rules, "https://x.com/ad", "https://www.example.com", "script"));
    assert!(!blocks(&rules, "https://x.com/ad", "https://ok.example.com", "script"));
    assert!(!blocks(&rules, "https://x.com/ad", "https://badexample.com", "script"));
}

#[test]
fn kinds_are_listed_or_ruled_out() {
    assert!(blocks(&["/ad$script,image"], "https://x.com/ad", "https://a.org", "image"));
    assert!(!blocks(&["/ad$script,image"], "https://x.com/ad", "https://a.org", "media"));
    assert!(!blocks(&["/ad$~script"], "https://x.com/ad", "https://a.org", "script"));
    assert!(blocks(&["/ad$~script"], "https://x.com/ad", "https://a.org", "font"));
    assert!(!blocks(&["/ad"], "https://x.com/ad", "https://a.org", "csp_report"));
    assert!(!blocks(&["/ad"], "https://x.com/ad", "https://a.org", "document"));
    assert!(blocks(&["/ad$all"], "https://x.com/ad", "https://a.org", "document"));
}

#[test]
fn bad_filter_takes_a_rule_back() {
    let url = "https://x.com/ad";
    assert!(!blocks(&["/ad$script", "/ad$script,badfilter"], url, "https://a.org", "script"));
    assert!(!blocks(&["/ad$script,badfilter", "/ad$script"], url, "https://a.org", "script"));
    assert!(blocks(&["/ad$script", "/ad$badfilter"], url, "https://a.org", "script"));
    assert!(!blocks(&["/ad$badfilter"], url, "https://a.org", "script"));
    let engine = engine(&["/ad$script", "/ad$script,badfilter", "/other"]);
    assert!(!engine.filter_exists("/ad$script"));
    assert!(!engine.filter_exists("/ad$script,badfilter"));
    assert!(engine.filter_exists("/other"));
}

#[test]
fn added_filters_exist() {
    let list = ["||a.com^", "/one", "/two", "@@/three", "/four$important", "/five$tag=t",
        "/six$redirect=r", "/seven$redirect-rule=r", "@@||b.com^$generichide",
        "||c.com^$csp=default-src"];
    for optimize in [false, true] {
        for debug in [false, true] {
            let engine = Engine::from_rules_parametrised(
                &lines(&list), Default::default(), debug, optimize,
            );
            for filter in list {
                assert!(engine.filter_exists(filter), "{}", filter);
            }
            assert!(!engine.filter_exists("/three"));
            assert!(!engine.filter_exists("/one$script"));
            assert!(!engine.filter_exists("/on"));
            assert!(!engine.filter_exists("||c.com^"));
            assert!(!engine.filter_exists("/one$nonsense"));
            assert!(!engine.filter_exists("##.ad"));
        }
    }
}

#[test]
fn joining_rules_keeps_verdicts() {
    let list = ["/one", "/two", "/three$script", "/four$script", "@@/one/ok", "@@/two/ok"];
    let joined = Engine::from_rules_parametrised(&lines(&list), Default::default(), true, true);
    let apart = Engine::from_rules_parametrised(&lines(&list), Default::default(), true, false);
    for path in ["one", "two", "three", "four", "five", "one/ok", "two/ok"] {
        let url = format!("https://x.com/{}", path);
        let a = joined.check_network_urls(&url, "https://a.org", "script");
        let b = apart.check_network_urls(&url, "https://a.org", "script");
        assert_eq!(a.matched, b.matched, "{}", url);
        assert_eq!(a.exception.is_some(), b.exception.is_some(), "{}", url);
    }
    let shown = joined.check_network_urls("https://x.com/two", "https://a.org", "script").filter;
    assert_eq!(shown, Some("/one <+> /two".to_owned()));
    let shown = apart.check_network_urls("https://x.com/two", "https://a.org", "script").filter;
    assert_eq!(shown, Some("/two".to_owned()));
}

#[test]
fn lines_are_kept_on_demand() {
    let list = lines(&["/one"]);
    let plain = Engine::from_rules(&list, Default::default());
    let result = plain.check_network_urls("https://x.com/one", "https://a.org", "script");
    assert!(result.matched);
    assert_eq!(result.filter, Some("NetworkFilter".to_owned()));
    let debug = Engine::from_rules_debug(&list, Default::default());
    let result = debug.check_network_urls("https://x.com/one", "https://a.org", "script");
    assert!(result.matched);
    assert_eq!(result.filter, Some("/one".to_owned()));
}

#[test]
fn sources_of_several_formats_add_up() {
    let mut set = FilterSet::new(true);
    set.add_filters(&lines(&["/one"]), Default::default());
    set.add_filters(
        &lines(&["127.0.0.1 ads.com # ads", "# a comment", "0.0.0.0 0.0.0.0", "more.com"]),
        ParseOptions { format: FilterFormat::Hosts },
    );
    set.add_filters(&lines(&["/two"]), Default::default());
    assert_eq!(set.network_filters.len(), 4);
    let engine = Engine::from_filter_set(set, true);
    for url in ["https://x.com/one", "https://x.com/two", "https://ads.com/", "https://a.more.com/"] {
        assert!(engine.check_network_urls(url, "https://a.org", "image").matched, "{}", url);
    }
    assert!(!engine.check_network_urls("https://x.com/", "https://a.org", "image").matched);
}

#[test]
fn lists_in_parts_equal_one_list() {
    let mut set = FilterSet::new(true);
    set.add_filters(&lines(&["/one", "/two"]), Default::default());
    set.add_filters(&lines(&["@@/two"]), Default::default());
    let parts = Engine::from_filter_set(set, true);
    let whole = engine(&["/one", "/two", "@@/two"]);
    for url in ["https://x.com/one", "https://x.com/two"] {
        assert_eq!(
            parts.check_network_urls(url, "https://a.org", "image"),
            whole.check_network_urls(url, "https://a.org", "image"),
        );
    }
}

#[test]
fn tags_add_up_and_cancel() {
    let mut engine = engine(&["/one$tag=a", "/two$tag=b"]);
    let hit = |engine: &Engine, url: &str| {
        engine.check_network_urls(url, "https://a.org", "image").matched
    };
    assert!(!hit(&engine, "https://x.com/one"));
    engine.enable_tags(&["a"]);
    assert!(engine.tag_exists("a"));
    assert!(!engine.tag_exists("b"));
    engine.enable_tags(&["b", "b", "c"]);
    assert!(engine.tag_exists("a") && engine.tag_exists("b") && engine.tag_exists("c"));
    assert!(hit(&engine, "https://x.com/one") && hit(&engine, "https://x.com/two"));
    engine.disable_tags(&["b", "d"]);
    assert!(engine.tag_exists("a") && !engine.tag_exists("b") && engine.tag_exists("c"));
    assert!(hit(&engine, "https://x.com/one") && !hit(&engine, "https://x.com/two"));
    engine.use_tags(&["b"]);
    assert!(!engine.tag_exists("a") && engine.tag_exists("b") && !engine.tag_exists("c"));
    assert!(!hit(&engine, "https://x.com/one") && hit(&engine, "https://x.com/two"));
    engine.use_tags(&[]);
    assert!(!engine.tag_exists("b"));
}

#[test]
fn tagged_rules_exist_while_they_wait() {
    let mut engine = engine(&["/one$tag=a"]);
    assert!(engine.filter_exists("/one$tag=a"));
    engine.enable_tags(&["a"]);
    assert!(engine.filter_exists("/one$tag=a"));
    assert!(!engine.filter_exists("/one"));
}

#[test]
fn policies_are_joined_for_documents() {
    let engine = engine(&[
        "||example.com^$csp=script-src 'self'",
        "||example.com^$csp=img-src 'none'",
        "||example.com^$csp=font-src 'none'",
        "||example.com/twice$csp=img-src 'none'",
        "@@||example.com/frames$csp=font-src 'none'",
        "@@||example.com/free$csp",
    ]);
    let ask = |url: &str, kind: &str| {
        engine.get_csp_directives(url, "example.com", "a.org", kind, None)
    };
    let all = "script-src 'self',img-src 'none',font-src 'none'".to_owned();
    assert_eq!(ask("https://example.com/", "document"), Some(all.clone()));
    assert_eq!(ask("https://example.com/", "subdocument"), Some(all.clone()));
    assert_eq!(ask("https://example.com/twice", "document"), Some(all));
    assert_eq!(
        ask("https://example.com/frames", "document"),
        Some("script-src 'self',img-src 'none'".to_owned()),
    );
    assert_eq!(ask("https://example.com/free", "document"), None);
    assert_eq!(ask("https://example.com/", "script"), None);
    assert_eq!(
        engine.get_csp_directives("https://other.com/", "other.com", "a.org", "document", None),
        None,
    );
}

#[test]
fn policies_do_not_block() {
    assert!(!blocks(&["||example.com^$csp=a"], "https://example.com/", "https://a.org", "document"));
}

#[test]
fn redirection_names_the_resource() {
    let mut engine = engine(&["/ad$redirect=empty", "/rule$redirect-rule=empty", "/none$redirect=no"]);
    engine.use_resources(&[text_resource("empty", &["void"], "hi")]);
    let address = Some(Redirection::Resource("data:text/plain;base64,aGk=".to_owned()));
    let result = engine.check_network_urls("https://x.com/ad", "https://a.org", "script");
    assert!(result.matched);
    assert_eq!(result.redirect, address);
    let result = engine.check_network_urls("https://x.com/rule", "https://a.org", "script");
    assert!(!result.matched);
    assert_eq!(result.redirect, address);
    let result = engine.check_network_urls("https://x.com/none", "https://a.org", "script");
    assert!(result.matched);
    assert_eq!(result.redirect, None);
}

#[test]
fn redirection_can_be_excepted() {
    let mut engine = engine(&["/ad$redirect=empty", "@@/ad/plain$redirect=empty"]);
    engine.use_resources(&[text_resource("empty", &[], "")]);
    let result = engine.check_network_urls("https://x.com/ad/plain", "https://a.org", "script");
    assert_eq!(result.redirect, None);
    let result = engine.check_network_urls("https://x.com/ad/other", "https://a.org", "script");
    assert_eq!(result.redirect, Some(Redirection::Resource("data:text/plain;base64,".to_owned())));
}

#[test]
fn international_hosts_are_compared_in_ascii() {
    let rules = ["||b\u{fc}cher.example^"];
    assert!(blocks(&rules, "https://b\u{fc}cher.example/", "https://a.org", "script"));
    assert!(blocks(&rules, "https://xn--bcher-kva.example/", "https://a.org", "script"));
    assert!(!blocks(&rules, "https://bucher.example/", "https://a.org", "script"));
}

#[test]
fn long_international_hosts_are_hosts() {
    let label = format!("\u{fc}{}", "a".repeat(300));
    let host = format!("{}.{}.com", label, label);
    let engine = engine(&["||com^$script", &format!("||{}.com^", label)]);
    let check = |url: &str| engine.check_network_urls(url, "https://a.org", "image");
    assert_eq!(check(&format!("https://{}/", host)).error, None);
    assert!(check(&format!("https://{}/", host)).matched);
    assert!(!check("https://x.com/").matched);
    assert!(CosmeticFilter::parse(&format!("{}##.ad", host)).is_ok());
    let refused = format!("{}\u{fff80}", "a".repeat(4096));
    assert_eq!(
        check(&format!("https://{}/", refused)).error,
        Some("Error parsing request".to_owned()),
    );
    assert_eq!(
        NetworkFilter::parse(&format!("||{}^", refused), false).err(),
        Some(NetworkFilterError::InvalidHostname),
    );
    assert_eq!(
        CosmeticFilter::parse(&format!("{}##.ad", refused)).err(),
        Some(CosmeticFilterError::InvalidHostname),
    );
    assert_eq!(check(&format!("https://{}/", "a".repeat(5000))).error, None);
}

#[test]
fn filters_are_found_whatever_white_space_is_around_them() {
    let mut engine = engine(&["  /one\t", "/two$tag=t", "@@/three", "/four$important "]);
    for tags in [&[][..], &["t"][..], &["u"][..]] {
        engine.use_tags(tags);
        for filter in ["  /one\t", "/one", " /two$tag=t", "@@/three\n", "/four$important "] {
            assert!(engine.filter_exists(filter), "{:?}", filter);
        }
    }
    let result = engine.check_network_urls("https://x.com/one", "https://a.org", "image");
    assert_eq!(result.filter, Some("/one".to_owned()));
}

#[test]
fn tags_turn_rules_on_and_off() {
    let rest = ["/other", "@@/other/ok", "/last$important"];
    for pattern in ["/ad", "||x.com^", "@@/other", "/a[d]$/", "/ad*x|"] {
        for optimize in [false, true] {
            let load = |last: &[String]| {
                let mut list = lines(&rest);
                list.extend(last.iter().cloned());
                Engine::from_rules_parametrised(&list, Default::default(), false, optimize)
            };
            let mut tagged = load(&[format!("{}$tag=t", pattern)]);
            let plain = load(&[pattern.to_owned()]);
            let none = load(&[]);
            for url in ["https://x.com/ad", "https://y.com/ad", "https://y.com/adx",
                "https://y.com/other", "https://y.com/last", "https://y.com/"] {
                let check = |engine: &Engine| {
                    engine.check_network_urls(url, "https://a.org", "image")
                };
                tagged.use_tags(&[]);
                assert_eq!(check(&tagged), check(&none), "{} {}", pattern, url);
                tagged.use_tags(&["t"]);
                assert_eq!(check(&tagged), check(&plain), "{} {}", pattern, url);
            }
        }
    }
}

#[test]
fn engines_without_rules_block_nothing() {
    for engine in [Engine::default(), Engine::new(true), Engine::new(false)] {
        let result = engine.check_network_urls("https://x.com/ad", "https://a.org", "script");
        assert_eq!(result, BlockerResult::default());
    }
    assert!(Engine::default().blocker.enable_optimizations);
    assert!(!Engine::new(false).blocker.enable_optimizations);
}

#[test]
fn engines_can_be_shared_between_threads() {
    fn assert_send<T: Send>() {}
    fn assert_sync<T: Sync>() {}
    assert_send::<Engine>();
    assert_sync::<Engine>();
}

//! Cosmetic rules: what is hidden, restyled and injected on a page.

use std::collections::HashSet;

use adblock::cosmetic_filter_cache::UrlSpecificResources;
use adblock::engine::Engine;
use adblock::filters::cosmetic::cut_entity;
use adblock::resources::{
    read_content, AddResourceError, MimeType, RedirectResource, Resource, ResourceType,
};

fn lines(list: &[&str]) -> Vec<String> {
    list.iter().map(|s| s.to_string()).collect()
}

fn engine(list: &[&str]) -> Engine {
    Engine::from_rules(&lines(list), Default::default())
}

fn set(list: &[String]) -> HashSet<String> {
    list.iter().cloned().collect()
}

fn script(name: &str, aliases: &[&str], template: &str) -> Resource {
    Resource {
        name: name.to_owned(),
        aliases: lines(aliases),
        kind: ResourceType::Template,
        content: base64::encode(template),
    }
}

#[test]
fn rules_for_a_host_hide_there() {
    let engine = engine(&["example.com,~ok.example.com##.ad", "other.com##.other"]);
    let page = engine.url_cosmetic_resources("https://example.com/");
    assert_eq!(page.hide_selectors, lines(&[".ad"]));
    let page = engine.url_cosmetic_resources("https://www.example.com/");
    assert_eq!(page.hide_selectors, lines(&[".ad"]));
    let page = engine.url_cosmetic_resources("https://ok.example.com/");
    assert_eq!(page.hide_selectors, lines(&[]));
    assert_eq!(page.exceptions, lines(&[".ad"]));
    let page = engine.url_cosmetic_resources("https://notexample.com/");
    assert_eq!(page.hide_selectors, lines(&[]));
}

#[test]
fn entries_with_a_star_cover_any_suffix() {
    let engine = engine(&["google.*##.ad"]);
    for url in ["https://google.com/", "https://www.google.co.uk/"] {
        assert_eq!(engine.url_cosmetic_resources(url).hide_selectors, lines(&[".ad"]), "{}", url);
    }
    assert_eq!(
        engine.url_cosmetic_resources("https://google.example.com/").hide_selectors,
        lines(&[]),
    );
}

#[test]
fn exceptions_take_rules_back() {
    let engine = engine(&["##a[href]", "##.generic", "example.com##.ad", "example.com#@#.ad",
        "example.com#@#a[href]", "example.com#@#.generic"]);
    let page = engine.url_cosmetic_resources("https://example.com/");
    assert_eq!(page.hide_selectors, lines(&[]));
    assert_eq!(set(&page.exceptions), set(&lines(&[".ad", "a[href]", ".generic"])));
    assert!(page.hide_selectors.iter().all(|s| !page.exceptions.contains(s)));
    let found = engine.hidden_class_id_selectors(&lines(&["generic"]), &[], &page.exceptions);
    assert_eq!(found, lines(&[]));
    let page = engine.url_cosmetic_resources("https://other.com/");
    assert_eq!(page.hide_selectors, lines(&["a[href]"]));
    let found = engine.hidden_class_id_selectors(&lines(&["generic"]), &[], &page.exceptions);
    assert_eq!(found, lines(&[".generic"]));
}

#[test]
fn each_selector_is_hidden_once() {
    let engine = engine(&["a.com##.ad", "www.a.com##.ad", "##a[href]", "a.com##a[href]", "##a[href]"]);
    let page = engine.url_cosmetic_resources("https://www.a.com/");
    assert_eq!(page.hide_selectors, lines(&[".ad", "a[href]"]));
}

#[test]
fn classes_and_ids_find_generic_selectors() {
    let engine = engine(&["##.a-class", "##.a-class .simple", "###an-id", "##.a-class", "##.b, .c",
        "##a[href]", "###an-id > .x", "##.a\\:b"]);
    let none: Vec<String> = vec![];
    assert_eq!(
        engine.hidden_class_id_selectors(&lines(&["a-class"]), &[], &none),
        lines(&[".a-class", ".a-class .simple"]),
    );
    assert_eq!(
        engine.hidden_class_id_selectors(&lines(&["x", "b"]), &lines(&["an-id"]), &none),
        lines(&["#an-id", "#an-id > .x"]),
    );
    assert_eq!(
        engine.hidden_class_id_selectors(
            &lines(&["a-class"]), &lines(&["an-id"]), &lines(&[".a-class", "#an-id > .x"]),
        ),
        lines(&[".a-class .simple", "#an-id"]),
    );
    assert_eq!(
        engine.hidden_class_id_selectors(&lines(&["a-clas"]), &lines(&["a-class"]), &none),
        none,
    );
    assert_eq!(
        engine.url_cosmetic_resources("https://x.com/").hide_selectors,
        lines(&[".b, .c", "a[href]", ".a\\:b"]),
    );
}

#[test]
fn every_generic_selector_is_found() {
    let list = ["##.one", "###two", "##three", "##.four:not(.five)", "##.six, .seven"];
    let engine = engine(&list);
    let page = engine.url_cosmetic_resources("https://x.com/");
    let classes = lines(&["one", "four", "five", "six", "seven"]);
    let mut all = engine.hidden_class_id_selectors(&classes, &lines(&["two"]), &page.exceptions);
    all.extend(page.hide_selectors);
    assert_eq!(set(&all), list.iter().map(|s| s[2..].to_string()).collect::<HashSet<_>>());
}

#[test]
fn generic_rules_are_left_out_on_demand() {
    let engine = engine(&["##a[href]", "x.com##.specific", "@@||x.com^$generichide"]);
    let page = engine.url_cosmetic_resources("https://x.com/");
    assert!(page.generichide);
    assert_eq!(page.hide_selectors, lines(&[".specific"]));
    let page = engine.url_cosmetic_resources("https://y.com/");
    assert!(!page.generichide);
    assert_eq!(page.hide_selectors, lines(&["a[href]"]));
}

#[test]
fn styles_are_given_and_taken_back() {
    let engine = engine(&[
        "a.com##.ad:style(color: red)",
        "a.com##.ad:style(margin: 0)",
        "b.a.com#@#.ad:style(color: red)",
    ]);
    let pair = |a: &str, b: &str| (a.to_owned(), b.to_owned());
    assert_eq!(
        engine.url_cosmetic_resources("https://a.com/").style_selectors,
        vec![pair(".ad", "color: red"), pair(".ad", "margin: 0")],
    );
    let page = engine.url_cosmetic_resources("https://b.a.com/");
    assert_eq!(page.style_selectors, vec![pair(".ad", "margin: 0")]);
    assert_eq!(page.hide_selectors, lines(&[]));
    assert_eq!(page.exceptions, lines(&[]));
}

#[test]
fn scripts_are_injected() {
    let mut engine = engine(&[
        "a.com##+js(set, x, 1)",
        "a.com##+js(alias.js, y)",
        "a.com##+js(unknown)",
        "www.a.com##+js(set, x, 1)",
        "b.a.com#@#+js(set, x, 1)",
    ]);
    engine.use_resources(&[script("set.js", &["alias"], "set({{1}}, {{2}})")]);
    assert_eq!(
        engine.url_cosmetic_resources("https://www.a.com/").injected_script,
        "try {\nset(x, 1)\n} catch ( e ) { }\ntry {\nset(y, {{2}})\n} catch ( e ) { }\n",
    );
    assert_eq!(
        engine.url_cosmetic_resources("https://b.a.com/").injected_script,
        "try {\nset(y, {{2}})\n} catch ( e ) { }\n",
    );
    assert_eq!(engine.url_cosmetic_resources("https://x.com/").injected_script, "");
}

#[test]
fn unparsable_pages_get_nothing() {
    let engine = engine(&["##a[href]"]);
    assert_eq!(engine.url_cosmetic_resources("x.com"), UrlSpecificResources::empty());
    assert_eq!(
        UrlSpecificResources::empty(),
        UrlSpecificResources {
            hide_selectors: vec![],
            style_selectors: vec![],
            exceptions: vec![],
            injected_script: String::new(),
            generichide: false,
        },
    );
}

#[test]
fn resources_are_found_under_all_names() {
    let mut engine = Engine::default();
    let pixel = |name: &str, aliases: &[&str], content: &str| Resource {
        name: name.to_owned(),
        aliases: lines(aliases),
        kind: ResourceType::Mime(MimeType::ImageGif),
        content: content.to_owned(),
    };
    let found = |engine: &Engine, key: &str| engine.get_resource(key).map(|r| r.data);
    assert_eq!(engine.add_resource(pixel("one", &["two", "three"], "AAAA")), Ok(()));
    for key in ["one", "two", "three"] {
        assert_eq!(
            engine.get_resource(key),
            Some(RedirectResource { content_type: "image/gif".to_owned(), data: "AAAA".to_owned() }),
        );
    }
    assert_eq!(engine.get_resource("four"), None);
    assert_eq!(engine.add_resource(pixel("two", &[], "BBBB")), Ok(()));
    assert_eq!(found(&engine, "one"), Some("AAAA".to_owned()));
    assert_eq!(found(&engine, "two"), Some("BBBB".to_owned()));
    engine.use_resources(&[pixel("five", &[], "CCCC"), pixel("six", &[], "!"), pixel("five", &[], "DDDD")]);
    assert_eq!(found(&engine, "one"), None);
    assert_eq!(found(&engine, "six"), None);
    assert_eq!(found(&engine, "five"), Some("DDDD".to_owned()));
}

#[test]
fn flawed_resources_are_refused() {
    let mut engine = engine(&["a.com##+js(s)"]);
    engine.use_resources(&[script("s", &[], "good")]);
    let refused = Resource { content: "not base64!".to_owned(), ..script("s", &[], "") };
    assert_eq!(engine.add_resource(refused), Err(AddResourceError::InvalidBase64Content));
    let refused = Resource { content: base64::encode([0xff, 0xfe]), ..script("s", &[], "") };
    assert_eq!(engine.add_resource(refused), Err(AddResourceError::InvalidUtf8Content));
    let refused = Resource {
        name: "t".to_owned(),
        aliases: vec![],
        kind: ResourceType::Mime(MimeType::TextPlain),
        content: base64::encode([0xff, 0xfe]),
    };
    assert_eq!(engine.add_resource(refused), Err(AddResourceError::InvalidUtf8Content));
    assert_eq!(engine.get_resource("t"), None);
    let binary = Resource {
        name: "t".to_owned(),
        aliases: vec![],
        kind: ResourceType::Mime(MimeType::ImagePng),
        content: base64::encode([0xff, 0xfe]),
    };
    assert_eq!(engine.add_resource(binary), Ok(()));
    assert!(engine.get_resource("t").is_some());
    assert_eq!(
        engine.url_cosmetic_resources("https://a.com/").injected_script,
        "try {\ngood\n} catch ( e ) { }\n",
    );
}

#[test]
fn templates_make_no_answers() {
    let mut engine = Engine::default();
    assert_eq!(engine.add_resource(script("s.js", &[], "x")), Ok(()));
    assert_eq!(engine.get_resource("s.js"), None);
}

#[test]
fn script_resources_are_both_answers_and_scripts() {
    let mut engine = engine(&["a.com##+js(noop)"]);
    let resource = Resource {
        name: "noop.js".to_owned(),
        aliases: vec![],
        kind: ResourceType::Mime(MimeType::ApplicationJavascript),
        content: base64::encode("noop()"),
    };
    assert_eq!(engine.add_resource(resource), Ok(()));
    assert_eq!(engine.get_resource("noop.js").unwrap().content_type, "application/javascript");
    assert_eq!(
        engine.url_cosmetic_resources("https://a.com/").injected_script,
        "try {\nnoop()\n} catch ( e ) { }\n",
    );
}

#[test]
fn entities_end_before_the_suffix() {
    let cut = |host: &str, domain: &str| {
        let host: Vec<char> = host.chars().collect();
        let domain: Vec<char> = domain.chars().collect();
        cut_entity(&host, &domain).map(|entity| entity.into_iter().collect::<String>())
    };
    assert_eq!(cut("www.google.co.uk", "google.co.uk"), Some("www.google".to_owned()));
    assert_eq!(cut("google.com", "google.com"), Some("google".to_owned()));
    assert_eq!(cut("localhost", "localhost"), None);
    assert_eq!(cut("a.b", "longer.a.b"), None);
}

#[test]
fn contents_are_read_as_they_decode() {
    assert_eq!(read_content(None, true), Err(AddResourceError::InvalidBase64Content));
    assert_eq!(read_content(None, false), Err(AddResourceError::InvalidBase64Content));
    assert_eq!(read_content(Some(vec![0xff]), true), Err(AddResourceError::InvalidUtf8Content));
    assert_eq!(read_content(Some(vec![0xff]), false), Ok(None));
    assert_eq!(read_content(Some(b"hi".to_vec()), true), Ok(Some("hi".to_owned())));
    assert_eq!(read_content(Some(b"hi".to_vec()), false), Ok(None));
}

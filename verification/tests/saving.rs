//! Engines that are saved and loaded.

use std::io::Read;

use adblock::blocker::BlockerError;
use adblock::data_format::load_unzipped;
use adblock::engine::Engine;
use adblock::msgpack::{read_tokens, write_tokens, Token};
use adblock::resources::{MimeType, Resource, ResourceType};
use flate2::read::GzDecoder;

fn lines(list: &[&str]) -> Vec<String> {
    list.iter().map(|s| s.to_string()).collect()
}

const LIST: [&str; 16] = [
    "/one",
    "/two$script,domain=a.org|~b.a.org",
    "||three.com^$important,3p",
    "@@||three.com/ok^",
    "/four$tag=t",
    "/five$redirect=empty",
    "||six.com^$csp=default-src 'none'",
    "@@||seven.com^$generichide",
    "/eigh[t]/",
    "|https://nine.com/|$match-case",
    "##.generic",
    "##a[href]",
    "a.org,~b.a.org##.specific",
    "a.org##.x:style(color: red)",
    "a.org##+js(noop, 1)",
    "c.a.org#@#.specific",
];

fn sample(optimize: bool) -> Engine {
    let mut engine =
        Engine::from_rules_parametrised(&lines(&LIST), Default::default(), true, optimize);
    engine.use_resources(&[
        Resource {
            name: "empty".to_owned(),
            aliases: vec!["void".to_owned()],
            kind: ResourceType::Mime(MimeType::TextPlain),
            content: "".to_owned(),
        },
        Resource {
            name: "noop.js".to_owned(),
            aliases: vec![],
            kind: ResourceType::Template,
            content: base64::encode("noop({{1}})"),
        },
    ]);
    engine
}

fn assert_same(a: &Engine, b: &Engine) {
    for url in ["https://x.com/one", "https://x.com/two", "https://three.com/", "https://three.com/ok",
        "https://x.com/four", "https://x.com/five", "https://x.com/eight", "https://nine.com/",
        "https://x.com/"] {
        for source in ["https://a.org", "https://b.a.org", "https://x.com"] {
            for kind in ["script", "document", "image"] {
                assert_eq!(
                    a.check_network_urls(url, source, kind),
                    b.check_network_urls(url, source, kind),
                );
            }
        }
    }
    for url in ["https://a.org/", "https://b.a.org/", "https://c.a.org/", "https://seven.com/"] {
        assert_eq!(a.url_cosmetic_resources(url), b.url_cosmetic_resources(url));
    }
    assert_eq!(
        a.get_csp_directives("https://six.com/", "six.com", "", "document", None),
        b.get_csp_directives("https://six.com/", "six.com", "", "document", None),
    );
    let classes = lines(&["generic"]);
    let none: Vec<String> = vec![];
    assert_eq!(
        a.hidden_class_id_selectors(&classes, &none, &none),
        b.hidden_class_id_selectors(&classes, &none, &none),
    );
    for key in ["empty", "void", "noop.js"] {
        assert_eq!(a.get_resource(key), b.get_resource(key));
    }
    for filter in LIST {
        assert_eq!(a.filter_exists(filter), b.filter_exists(filter), "{}", filter);
    }
}

#[test]
fn raw_data_gives_the_engine_back() {
    for optimize in [false, true] {
        let engine = sample(optimize);
        let bytes = engine.serialize_raw().unwrap();
        let mut loaded = Engine::default();
        assert_eq!(loaded.deserialize(&bytes), Ok(()));
        assert_same(&engine, &loaded);
        assert_eq!(loaded.blocker.enable_optimizations, optimize);
        assert_eq!(loaded.serialize_raw().unwrap(), bytes);
    }
}

#[test]
fn compressed_data_gives_the_engine_back() {
    for optimize in [false, true] {
        let engine = sample(optimize);
        let bytes = engine.serialize_compressed().unwrap();
        let mut loaded = Engine::default();
        assert_eq!(loaded.deserialize(&bytes), Ok(()));
        assert_same(&engine, &loaded);
        assert_eq!(loaded.blocker.enable_optimizations, optimize);
        assert_eq!(loaded.serialize_raw().unwrap(), engine.serialize_raw().unwrap());
    }
}

#[test]
fn formats_are_marked() {
    let engine = sample(true);
    let raw = engine.serialize_raw().unwrap();
    assert_eq!(raw[..5], [0xd1, 0xd9, 0x3a, 0xaf, 0]);
    let compressed = engine.serialize_compressed().unwrap();
    assert_eq!(compressed[..2], [0x1f, 0x8b]);
    assert_ne!(compressed, raw);
    let mut unzipped: Vec<u8> = Vec::new();
    GzDecoder::new(&compressed[..]).read_to_end(&mut unzipped).unwrap();
    assert_ne!(unzipped, raw);
    assert_ne!(unzipped, raw[5..]);
    assert_eq!(unzipped[0], 0x9c);
}

#[test]
fn an_empty_engine_in_bytes() {
    let bytes = Engine::new(true).serialize_raw().unwrap();
    assert_eq!(
        bytes,
        vec![
            0xd1, 0xd9, 0x3a, 0xaf, 0, 0x9c, 0x90, 0x90, 0x90, 0x90, 0x90, 0x90, 0x90, 0xc3, 0x80,
            0x90, 0x90, 0x80,
        ],
    );
}

#[test]
fn a_rule_in_bytes() {
    let bytes = Engine::from_rules(&lines(&["ad-banner"]), Default::default()).serialize_raw();
    let rule = vec![
        0x91, 0x9e, 0x91, 0xce, 0x00, 0x03, 0x1f, 0xff, 0x92, 0x02, 0x91, 0x91, 0xa9, 0x61, 0x64,
        0x2d, 0x62, 0x61, 0x6e, 0x6e, 0x65, 0x72, 0x90, 0x90, 0xc0, 0xc0, 0xc0, 0xc0, 0xc0, 0xc0,
        0x00, 0xc0, 0xc0, 0xc0,
    ];
    assert_eq!(bytes.unwrap()[11..45], rule);
}

#[test]
fn the_tags_of_the_receiver_stay() {
    let mut engine = sample(true);
    engine.use_tags(&["t"]);
    let saved = [engine.serialize_raw().unwrap(), engine.serialize_compressed().unwrap()];
    engine.use_tags(&[]);
    assert_eq!(engine.serialize_raw().unwrap(), saved[0]);
    for bytes in saved {
        let mut loaded = Engine::default();
        loaded.deserialize(&bytes).unwrap();
        assert!(!loaded.tag_exists("t"));
        assert!(!loaded.check_network_urls("https://x.com/four", "", "image").matched);
        loaded.use_tags(&["t", "u"]);
        loaded.deserialize(&bytes).unwrap();
        assert!(loaded.tag_exists("t") && loaded.tag_exists("u"));
        assert!(loaded.check_network_urls("https://x.com/four", "", "image").matched);
    }
}

#[test]
fn other_bytes_are_refused() {
    let engine = sample(true);
    let raw = engine.serialize_raw().unwrap();
    let compressed = engine.serialize_compressed().unwrap();
    let mut versioned = raw.clone();
    versioned[4] = 1;
    let mut longer = raw.clone();
    longer.push(0xc0);
    let mut broken = compressed.clone();
    let middle = broken.len() / 2;
    broken[middle] ^= 0xff;
    let cases: Vec<Vec<u8>> = vec![
        vec![],
        vec![0xd1, 0xd9, 0x3a, 0xaf],
        vec![0x1f, 0x8b],
        b"not an engine".to_vec(),
        raw[..raw.len() - 1].to_vec(),
        raw[5..].to_vec(),
        compressed[..compressed.len() - 9].to_vec(),
        versioned,
        longer,
        broken,
    ];
    for bytes in cases {
        let mut loaded = sample(true);
        loaded.use_tags(&["t"]);
        assert_eq!(loaded.deserialize(&bytes), Err(BlockerError::DeserializationError));
        assert!(loaded.tag_exists("t"));
        loaded.use_tags(&[]);
        assert_same(&engine, &loaded);
    }
}

#[test]
fn tokens_in_bytes() {
    let cases: Vec<(Token, Vec<u8>)> = vec![
        (Token::Nil, vec![0xc0]),
        (Token::Bool(false), vec![0xc2]),
        (Token::Bool(true), vec![0xc3]),
        (Token::UInt(0), vec![0]),
        (Token::UInt(127), vec![0x7f]),
        (Token::UInt(128), vec![0xcc, 0x80]),
        (Token::UInt(256), vec![0xcd, 1, 0]),
        (Token::UInt(65536), vec![0xce, 0, 1, 0, 0]),
        (Token::UInt(u64::MAX), vec![0xcf, 255, 255, 255, 255, 255, 255, 255, 255]),
        (Token::Text("h\u{e9}".to_owned()), vec![0xa3, 0x68, 0xc3, 0xa9]),
        (Token::Array(15), vec![0x9f]),
        (Token::Array(16), vec![0xdc, 0, 16]),
        (Token::Array(65536), vec![0xdd, 0, 1, 0, 0]),
        (Token::Pairs(15), vec![0x8f]),
        (Token::Pairs(16), vec![0xde, 0, 16]),
        (Token::Pairs(65536), vec![0xdf, 0, 1, 0, 0]),
    ];
    for (token, bytes) in cases {
        let list = vec![token];
        assert_eq!(write_tokens(&list), Some(bytes.clone()));
        assert_eq!(read_tokens(&bytes), Some(list));
    }
    for (len, head) in [(31, vec![0xbf]), (32, vec![0xd9, 32]), (256, vec![0xda, 1, 0]),
        (65536, vec![0xdb, 0, 1, 0, 0])] {
        let list = vec![Token::Text("x".repeat(len))];
        let bytes = write_tokens(&list).unwrap();
        assert_eq!(bytes[..head.len()], head);
        assert_eq!(bytes.len(), head.len() + len);
        assert_eq!(read_tokens(&bytes), Some(list));
    }
}

#[test]
fn bytes_that_are_no_tokens() {
    for bytes in [vec![0xc1], vec![0xcd, 1], vec![0xa2, 0x68], vec![0xa1, 0xff], vec![0xe0]] {
        assert_eq!(read_tokens(&bytes), None);
    }
    assert_eq!(read_tokens(&[]), Some(vec![]));
    assert_eq!(read_tokens(&[0xd9, 1, 0x61]), Some(vec![Token::Text("a".to_owned())]));
}

#[test]
fn unzipped_data_can_be_loaded() {
    let data: Vec<u8> = vec![
        0x9b, 0x91, 0x80, 0x91, 0x80, 0x91, 0x80, 0x91, 0x80, 0x91, 0x80, 0x91, 0x81, 0x07, 0x91,
        0x9e, 0x91, 0xce, 0x00, 0x03, 0x1f, 0xff, 0x92, 0x01, 0x91, 0xa2, 0x61, 0x64, 0xc0, 0xc0,
        0xc0, 0xc0, 0xc0, 0xc0, 0xc0, 0xc0, 0x05, 0xc0, 0xc0, 0xc0, 0x90, 0xc2, 0xc3, 0xc2, 0xc3,
    ];
    let (blocker, cache) = load_unzipped(&data).unwrap();
    assert_eq!(blocker.filters.len(), 1);
    assert_eq!(blocker.filters[0].patterns, vec![vec!['a', 'd']]);
    assert!(blocker.enable_optimizations);
    assert!(blocker.tags_enabled().is_empty());
    assert!(cache.generic.is_empty() && cache.specific.is_empty());
    let mut switched = data.clone();
    switched[42] = 0xc2;
    assert!(!load_unzipped(&switched).unwrap().0.enable_optimizations);
    let mut hosted = data.clone();
    hosted.splice(31..32, [0xa2, 0x78, 0x2e]);
    assert_eq!(
        load_unzipped(&hosted).unwrap().0.filters[0].patterns,
        vec![vec!['x', '.', 'a', 'd']],
    );
    assert!(load_unzipped(&data[..data.len() - 1]).is_none());
    assert!(load_unzipped(&[]).is_none());
    let mut longer = data;
    longer.push(0xc0);
    assert!(load_unzipped(&longer).is_none());
}

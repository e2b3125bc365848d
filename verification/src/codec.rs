//! Rules and resources written as tokens and read back.

use vstd::prelude::*;

use crate::directory::Directory;
use crate::filters::cosmetic::{cosmetic_rules, CosmeticFilter, CosmeticRule};
use crate::filters::network::{rules, FilterMask, KindSet, NetworkFilter, NetworkRule};
use crate::layout::{
    behind, bit, cosmetic_items, cosmetic_taker, cosmetic_writer, cosmetics_items, is_opt_text,
    is_passed_over, kind_bits, lemma_many_missing, list_items, many_items, mask_bits, mask_of,
    opt_text_item, opt_text_of, pack_kinds, pack_role, pack_scope, resource_taker,
    resource_writer, resources_items, rest, role_bits, rule_items, rule_taker, rule_writer,
    rules_items, scope_bits, script_taker, script_writer, scripts_items, tail_items,
    take_cosmetic, take_cosmetics, take_list, take_many, take_mask, take_names, take_patterns,
    take_resource, take_resources, take_rule, take_rules, take_script, take_scripts, take_tail,
    take_text, take_texts, text_items, text_taker, texts_items, TailModel,
};
use crate::msgpack::{items, Item, Token};
use crate::resources::{RedirectModel, RedirectResource};
use crate::text::{chars_of, extend, opt_text, string_of, strings, texts};

verus! {

/// Writes a token.
pub fn push_one(out: &mut Vec<Token>, token: Token)
    ensures
        items(final(out)@) == items(old(out)@).push(token@),
{
    out.push(token);
    assert(items(out@) =~= items(old(out)@).push(token@));
}

fn push_opt(out: &mut Vec<Token>, text: &Option<String>)
    ensures
        items(final(out)@) == items(old(out)@).push(opt_text_item(opt_text(*text))),
{
    match text {
        Some(s) => push_one(out, Token::Text(s.clone())),
        None => push_one(out, Token::Nil),
    }
}

/// The tokens from a later position on are what is left of those from an earlier one.
pub proof fn lemma_rest(tokens: Seq<Token>, pos: int, k: int)
    requires
        0 <= pos,
        0 <= k,
        pos + k <= tokens.len(),
    ensures
        rest(tokens, pos).skip(k) == rest(tokens, pos + k),
        rest(tokens, pos).len() == tokens.len() - pos,
        forall|i: int|
            0 <= i < tokens.len() - pos ==> #[trigger] rest(tokens, pos)[i] == tokens[pos + i]@,
{
    assert(rest(tokens, pos).skip(k) =~= rest(tokens, pos + k));
}

/// How values of a sort are written as tokens and read back.
pub trait Form {
    type Value;

    type Model;

    /// What a value stands for.
    spec fn model(value: Self::Value) -> Self::Model;

    /// What writes a value.
    spec fn writer() -> spec_fn(Self::Model) -> Seq<Item>;

    /// What takes a value.
    spec fn taker() -> spec_fn(Seq<Item>) -> Option<(Self::Model, Seq<Item>)>;

    /// Writes a value.
    fn put(out: &mut Vec<Token>, value: &Self::Value)
        ensures
            items(final(out)@) == items(old(out)@) + (Self::writer())(Self::model(*value)),
    ;

    /// Reads a value.
    fn fetch(tokens: &Vec<Token>, pos: usize) -> (r: Option<(Self::Value, usize)>)
        requires
            pos <= tokens@.len(),
        ensures
            match r {
                Some((value, next)) => {
                    &&& pos <= next <= tokens@.len()
                    &&& (Self::taker())(rest(tokens@, pos as int)) == Some(
                        (Self::model(value), rest(tokens@, next as int)),
                    )
                },
                None => (Self::taker())(rest(tokens@, pos as int)) is None,
            },
    ;
}

/// What the values of a list stand for.
pub open spec fn models<F: Form>(list: Seq<F::Value>) -> Seq<F::Model> {
    list.map_values(|v: F::Value| F::model(v))
}

/// Writes values, one after the other.
pub fn put_many<F: Form>(out: &mut Vec<Token>, list: &Vec<F::Value>)
    ensures
        items(final(out)@) == items(old(out)@) + many_items(models::<F>(list@), F::writer()),
{
    let ghost all = models::<F>(list@);
    let ghost base = items(out@);
    let mut i: usize = 0;
    assert(items(out@) =~= base + many_items(all.take(0), F::writer()));
    while i < list.len()
        invariant
            i <= list@.len(),
            all == models::<F>(list@),
            items(out@) == base + many_items(all.take(i as int), F::writer()),
        decreases list@.len() - i,
    {
        proof {
            assert(all.take(i + 1).drop_last() =~= all.take(i as int));
            assert(all.take(i + 1).last() == F::model(list@[i as int]));
        }
        F::put(out, &list[i]);
        assert(items(out@) =~= base + many_items(all.take(i + 1), F::writer()));
        i += 1;
    }
    assert(all.take(i as int) =~= all);
}

/// Writes an array.
fn put_list<F: Form>(out: &mut Vec<Token>, list: &Vec<F::Value>)
    ensures
        items(final(out)@) == items(old(out)@) + list_items(models::<F>(list@), F::writer()),
{
    push_one(out, Token::Array(list.len()));
    put_many::<F>(out, list);
    assert(items(out@) =~= items(old(out)@) + list_items(models::<F>(list@), F::writer()));
}

/// Reads so many values, one after the other.
pub fn fetch_many<F: Form>(tokens: &Vec<Token>, pos: usize, n: usize) -> (r: Option<
    (Vec<F::Value>, usize),
>)
    requires
        pos <= tokens@.len(),
    ensures
        match r {
            Some((list, next)) => {
                &&& pos <= next <= tokens@.len()
                &&& take_many(rest(tokens@, pos as int), n as nat, F::taker()) == Some(
                    (models::<F>(list@), rest(tokens@, next as int)),
                )
                &&& list@.len() == n
            },
            None => take_many(rest(tokens@, pos as int), n as nat, F::taker()) is None,
        },
{
    let ghost first = rest(tokens@, pos as int);
    let mut list: Vec<F::Value> = Vec::new();
    let mut next: usize = pos;
    let mut i: usize = 0;
    assert(models::<F>(list@) =~= Seq::empty());
    while i < n
        invariant
            i <= n,
            pos <= next <= tokens@.len(),
            list@.len() == i,
            first == rest(tokens@, pos as int),
            take_many(first, i as nat, F::taker()) == Some(
                (models::<F>(list@), rest(tokens@, next as int)),
            ),
        decreases n - i,
    {
        let ghost before = models::<F>(list@);
        match F::fetch(tokens, next) {
            Some((value, after)) => {
                let ghost model = F::model(value);
                list.push(value);
                assert(models::<F>(list@) =~= before.push(model));
                next = after;
            },
            None => {
                proof {
                    lemma_many_missing(first, (i + 1) as nat, n as nat, F::taker());
                }
                return None;
            },
        }
        i += 1;
    }
    Some((list, next))
}

/// Reads an array.
fn fetch_list<F: Form>(tokens: &Vec<Token>, pos: usize) -> (r: Option<(Vec<F::Value>, usize)>)
    requires
        pos <= tokens@.len(),
    ensures
        match r {
            Some((list, next)) => {
                &&& pos <= next <= tokens@.len()
                &&& take_list(rest(tokens@, pos as int), F::taker()) == Some(
                    (models::<F>(list@), rest(tokens@, next as int)),
                )
            },
            None => take_list(rest(tokens@, pos as int), F::taker()) is None,
        },
{
    if pos >= tokens.len() {
        return None;
    }
    proof {
        lemma_rest(tokens@, pos as int, 1);
    }
    match &tokens[pos] {
        Token::Array(n) => fetch_many::<F>(tokens, pos + 1, *n),
        _ => None,
    }
}

fn read_text(tokens: &Vec<Token>, pos: usize) -> (r: Option<(String, usize)>)
    requires
        pos <= tokens@.len(),
    ensures
        match r {
            Some((s, next)) => {
                &&& pos <= next <= tokens@.len()
                &&& take_text(rest(tokens@, pos as int)) == Some((s@, rest(tokens@, next as int)))
            },
            None => take_text(rest(tokens@, pos as int)) is None,
        },
{
    if pos >= tokens.len() {
        return None;
    }
    proof {
        lemma_rest(tokens@, pos as int, 1);
    }
    match &tokens[pos] {
        Token::Text(s) => Some((s.clone(), pos + 1)),
        _ => None,
    }
}

fn read_chars(tokens: &Vec<Token>, pos: usize) -> (r: Option<(Vec<char>, usize)>)
    requires
        pos <= tokens@.len(),
    ensures
        match r {
            Some((s, next)) => {
                &&& pos <= next <= tokens@.len()
                &&& take_text(rest(tokens@, pos as int)) == Some((s@, rest(tokens@, next as int)))
            },
            None => take_text(rest(tokens@, pos as int)) is None,
        },
{
    match read_text(tokens, pos) {
        Some((s, next)) => Some((chars_of(s.as_str()), next)),
        None => None,
    }
}

/// A text.
pub struct TextForm {}

impl Form for TextForm {
    type Value = String;

    type Model = Seq<char>;

    open spec fn model(value: String) -> Seq<char> {
        value@
    }

    open spec fn writer() -> spec_fn(Seq<char>) -> Seq<Item> {
        text_items()
    }

    open spec fn taker() -> spec_fn(Seq<Item>) -> Option<(Seq<char>, Seq<Item>)> {
        text_taker()
    }

    fn put(out: &mut Vec<Token>, value: &String) {
        push_one(out, Token::Text(value.clone()));
        assert(items(out@) =~= items(old(out)@) + (Self::writer())(Self::model(*value)));
    }

    fn fetch(tokens: &Vec<Token>, pos: usize) -> (r: Option<(String, usize)>) {
        read_text(tokens, pos)
    }
}

/// A text, taken apart into its characters.
pub struct CharsForm {}

impl Form for CharsForm {
    type Value = Vec<char>;

    type Model = Seq<char>;

    open spec fn model(value: Vec<char>) -> Seq<char> {
        value@
    }

    open spec fn writer() -> spec_fn(Seq<char>) -> Seq<Item> {
        text_items()
    }

    open spec fn taker() -> spec_fn(Seq<Item>) -> Option<(Seq<char>, Seq<Item>)> {
        text_taker()
    }

    fn put(out: &mut Vec<Token>, value: &Vec<char>) {
        push_one(out, Token::Text(string_of(value.as_slice())));
        assert(items(out@) =~= items(old(out)@) + (Self::writer())(Self::model(*value)));
    }

    fn fetch(tokens: &Vec<Token>, pos: usize) -> (r: Option<(Vec<char>, usize)>) {
        read_chars(tokens, pos)
    }
}

/// Writes a list of texts.
pub fn push_strings(out: &mut Vec<Token>, list: &Vec<String>)
    ensures
        items(final(out)@) == items(old(out)@) + texts_items(strings(list@)),
{
    put_list::<TextForm>(out, list);
    assert(models::<TextForm>(list@) =~= strings(list@));
}

/// Reads a list of texts.
pub fn read_strings(tokens: &Vec<Token>, pos: usize) -> (r: Option<(Vec<String>, usize)>)
    requires
        pos <= tokens@.len(),
    ensures
        match r {
            Some((list, next)) => {
                &&& pos <= next <= tokens@.len()
                &&& take_texts(rest(tokens@, pos as int)) == Some(
                    (strings(list@), rest(tokens@, next as int)),
                )
            },
            None => take_texts(rest(tokens@, pos as int)) is None,
        },
{
    match fetch_list::<TextForm>(tokens, pos) {
        Some((list, next)) => {
            assert(models::<TextForm>(list@) =~= strings(list@));
            Some((list, next))
        },
        None => None,
    }
}

/// Writes a list of texts.
fn push_texts(out: &mut Vec<Token>, list: &Vec<Vec<char>>)
    ensures
        items(final(out)@) == items(old(out)@) + texts_items(texts(list@)),
{
    put_list::<CharsForm>(out, list);
    assert(models::<CharsForm>(list@) =~= texts(list@));
}

/// Reads a list of texts.
fn read_texts(tokens: &Vec<Token>, pos: usize) -> (r: Option<(Vec<Vec<char>>, usize)>)
    requires
        pos <= tokens@.len(),
    ensures
        match r {
            Some((list, next)) => {
                &&& pos <= next <= tokens@.len()
                &&& take_texts(rest(tokens@, pos as int)) == Some(
                    (texts(list@), rest(tokens@, next as int)),
                )
            },
            None => take_texts(rest(tokens@, pos as int)) is None,
        },
{
    match fetch_list::<CharsForm>(tokens, pos) {
        Some((list, next)) => {
            assert(models::<CharsForm>(list@) =~= texts(list@));
            Some((list, next))
        },
        None => None,
    }
}

fn flag(b: bool, value: u32) -> (r: u32)
    ensures
        r == bit(b, value),
{
    proof {
        reveal(bit);
    }
    if b {
        value
    } else {
        0
    }
}

fn write_kinds(k: &KindSet) -> (r: u32)
    ensures
        r == kind_bits(*k),
{
    proof {
        reveal(pack_kinds);
    }
    flag(k.image, 0x1) | flag(k.media, 0x2) | flag(k.object, 0x4) | flag(k.other, 0x8) | flag(
        k.ping,
        0x10,
    ) | flag(k.script, 0x20) | flag(k.stylesheet, 0x40) | flag(k.subdocument, 0x80) | flag(
        k.websocket,
        0x100,
    ) | flag(k.xmlhttprequest, 0x200) | flag(k.font, 0x400) | flag(k.document, 0x2000_0000)
}

fn write_scope(m: &FilterMask) -> (r: u32)
    ensures
        r == scope_bits(*m),
{
    proof {
        reveal(pack_scope);
    }
    flag(m.http, 0x800) | flag(m.https, 0x1000) | flag(m.important, 0x2000) | flag(
        m.match_case,
        0x4000,
    ) | flag(m.third_party, 0x1_0000) | flag(m.first_party, 0x2_0000)
}

fn write_role(m: &FilterMask) -> (r: u32)
    ensures
        r == role_bits(*m),
{
    proof {
        reveal(pack_role);
    }
    flag(m.left_anchor, 0x8_0000) | flag(m.right_anchor, 0x10_0000) | flag(
        m.hostname_anchor,
        0x20_0000,
    ) | flag(m.exception, 0x40_0000) | flag(m.csp, 0x80_0000) | flag(m.regex, 0x100_0000) | flag(
        m.bad_filter,
        0x800_0000,
    ) | flag(m.generic_hide, 0x4000_0000) | flag(m.redirect_only, 0x8000_0000)
}

/// The options of a rule as bits.
fn write_mask(m: &FilterMask) -> (r: u32)
    ensures
        r == mask_bits(*m),
{
    write_kinds(&m.kinds) | write_scope(m) | write_role(m)
}

/// The options that bits stand for.
fn read_bits(x: u32) -> (r: FilterMask)
    ensures
        r == mask_of(x),
{
    FilterMask {
        kinds: KindSet {
            image: x & 0x1 != 0,
            media: x & 0x2 != 0,
            object: x & 0x4 != 0,
            other: x & 0x8 != 0,
            ping: x & 0x10 != 0,
            script: x & 0x20 != 0,
            stylesheet: x & 0x40 != 0,
            subdocument: x & 0x80 != 0,
            websocket: x & 0x100 != 0,
            xmlhttprequest: x & 0x200 != 0,
            font: x & 0x400 != 0,
            document: x & 0x2000_0000 != 0,
        },
        http: x & 0x800 != 0,
        https: x & 0x1000 != 0,
        third_party: x & 0x1_0000 != 0,
        first_party: x & 0x2_0000 != 0,
        important: x & 0x2000 != 0,
        match_case: x & 0x4000 != 0,
        left_anchor: x & 0x8_0000 != 0,
        right_anchor: x & 0x10_0000 != 0,
        hostname_anchor: x & 0x20_0000 != 0,
        regex: x & 0x100_0000 != 0,
        exception: x & 0x40_0000 != 0,
        csp: x & 0x80_0000 != 0,
        generic_hide: x & 0x4000_0000 != 0,
        bad_filter: x & 0x800_0000 != 0,
        redirect_only: x & 0x8000_0000 != 0,
    }
}

/// Writes a rule.
fn push_rule(out: &mut Vec<Token>, rule: &NetworkFilter)
    ensures
        items(final(out)@) == items(old(out)@) + rule_items(rule@),
{
    let ghost base = items(out@);
    push_one(out, Token::Array(14));
    push_one(out, Token::Array(1));
    push_one(out, Token::UInt(write_mask(&rule.mask) as u64));
    push_one(out, Token::Array(2));
    push_one(out, Token::UInt(2));
    push_one(out, Token::Array(1));
    let ghost front = seq![
        Item::Array(14),
        Item::Array(1),
        Item::UInt(mask_bits(rule.mask) as u64),
        Item::Array(2),
        Item::UInt(2),
        Item::Array(1),
    ];
    assert(items(out@) =~= base + front);
    push_texts(out, &rule.patterns);
    push_texts(out, &rule.domains);
    push_texts(out, &rule.not_domains);
    let ghost middle = items(out@);
    push_opt(out, &rule.redirect);
    push_one(out, Token::Nil);
    push_opt(out, &rule.csp);
    push_one(out, Token::Nil);
    push_opt(out, &rule.tag);
    push_opt(out, &rule.raw_line);
    push_one(out, Token::UInt(0));
    push_one(out, Token::Nil);
    push_one(out, Token::Nil);
    push_one(out, Token::Nil);
    assert(items(out@) =~= middle + tail_items(rule@));
    assert(middle + tail_items(rule@) =~= base + (front + texts_items(rule@.patterns) + texts_items(
        rule@.domains,
    ) + texts_items(rule@.not_domains) + tail_items(rule@)));
}

fn read_names(tokens: &Vec<Token>, pos: usize) -> (r: Option<(Vec<Vec<char>>, usize)>)
    requires
        pos <= tokens@.len(),
    ensures
        match r {
            Some((list, next)) => {
                &&& pos <= next <= tokens@.len()
                &&& take_names(rest(tokens@, pos as int)) == Some(
                    (texts(list@), rest(tokens@, next as int)),
                )
            },
            None => take_names(rest(tokens@, pos as int)) is None,
        },
{
    if pos < tokens.len() {
        proof {
            lemma_rest(tokens@, pos as int, 1);
        }
        match &tokens[pos] {
            Token::Nil => {
                let list: Vec<Vec<char>> = Vec::new();
                assert(texts(list@) =~= Seq::empty());
                return Some((list, pos + 1));
            },
            _ => {},
        }
    }
    read_texts(tokens, pos)
}

fn read_mask(tokens: &Vec<Token>, pos: usize) -> (r: Option<(FilterMask, usize)>)
    requires
        pos <= tokens@.len(),
    ensures
        match r {
            Some((mask, next)) => {
                &&& pos <= next <= tokens@.len()
                &&& take_mask(rest(tokens@, pos as int)) == Some((mask, rest(tokens@, next as int)))
            },
            None => take_mask(rest(tokens@, pos as int)) is None,
        },
{
    if tokens.len() - pos < 3 {
        return None;
    }
    proof {
        lemma_rest(tokens@, pos as int, 3);
    }
    match (&tokens[pos], &tokens[pos + 1], &tokens[pos + 2]) {
        (Token::Array(14), Token::Array(1), Token::UInt(x)) => if *x <= 0xffff_ffff {
            Some((read_bits(*x as u32), pos + 3))
        } else {
            None
        },
        _ => None,
    }
}

fn read_patterns(tokens: &Vec<Token>, pos: usize) -> (r: Option<(Vec<Vec<char>>, usize)>)
    requires
        pos <= tokens@.len(),
    ensures
        match r {
            Some((list, next)) => {
                &&& pos <= next <= tokens@.len()
                &&& take_patterns(rest(tokens@, pos as int)) == Some(
                    (texts(list@), rest(tokens@, next as int)),
                )
            },
            None => take_patterns(rest(tokens@, pos as int)) is None,
        },
{
    if tokens.len() - pos < 3 {
        return None;
    }
    proof {
        lemma_rest(tokens@, pos as int, 3);
    }
    match (&tokens[pos], &tokens[pos + 1], &tokens[pos + 2]) {
        (Token::Array(2), Token::UInt(0), Token::Array(0)) => {
            let mut list: Vec<Vec<char>> = Vec::new();
            list.push(Vec::new());
            assert(texts(list@) =~= seq![Seq::empty()]);
            Some((list, pos + 3))
        },
        (Token::Array(2), Token::UInt(1), Token::Array(1)) => match read_chars(tokens, pos + 3) {
            Some((s, next)) => {
                let mut list: Vec<Vec<char>> = Vec::new();
                let ghost text = s@;
                list.push(s);
                assert(texts(list@) =~= seq![text]);
                Some((list, next))
            },
            None => None,
        },
        (Token::Array(2), Token::UInt(2), Token::Array(1)) => read_texts(tokens, pos + 3),
        _ => None,
    }
}

/// What a rule ends in.
struct Tail {
    redirect: Option<String>,
    hostname: Option<String>,
    csp: Option<String>,
    tag: Option<String>,
    raw_line: Option<String>,
}

impl View for Tail {
    type V = TailModel;

    closed spec fn view(&self) -> TailModel {
        TailModel {
            redirect: opt_text(self.redirect),
            hostname: opt_text(self.hostname),
            csp: opt_text(self.csp),
            tag: opt_text(self.tag),
            raw_line: opt_text(self.raw_line),
        }
    }
}

/// The text that a token holds, where it holds a text or nothing.
fn opt_text_in(token: &Token) -> (r: Option<Option<String>>)
    ensures
        match r {
            Some(text) => is_opt_text(token@) && opt_text_of(token@) == opt_text(text),
            None => !is_opt_text(token@),
        },
{
    match token {
        Token::Nil => Some(None),
        Token::Text(s) => Some(Some(s.clone())),
        _ => None,
    }
}

fn passes_over(token: &Token) -> (r: bool)
    ensures
        r == is_passed_over(token@),
{
    match token {
        Token::Nil => true,
        Token::UInt(_) => true,
        _ => false,
    }
}

fn read_tail(tokens: &Vec<Token>, pos: usize) -> (r: Option<(Tail, usize)>)
    requires
        pos <= tokens@.len(),
    ensures
        match r {
            Some((tail, next)) => {
                &&& pos <= next <= tokens@.len()
                &&& take_tail(rest(tokens@, pos as int)) == Some(
                    (tail@, rest(tokens@, next as int)),
                )
            },
            None => take_tail(rest(tokens@, pos as int)) is None,
        },
{
    if tokens.len() - pos < 10 {
        return None;
    }
    proof {
        lemma_rest(tokens@, pos as int, 10);
    }
    if !(passes_over(&tokens[pos + 3]) && passes_over(&tokens[pos + 6]) && passes_over(
        &tokens[pos + 7],
    ) && passes_over(&tokens[pos + 8]) && passes_over(&tokens[pos + 9])) {
        return None;
    }
    match (
        opt_text_in(&tokens[pos]),
        opt_text_in(&tokens[pos + 1]),
        opt_text_in(&tokens[pos + 2]),
        opt_text_in(&tokens[pos + 4]),
        opt_text_in(&tokens[pos + 5]),
    ) {
        (Some(redirect), Some(hostname), Some(csp), Some(tag), Some(raw_line)) => Some(
            (Tail { redirect, hostname, csp, tag, raw_line }, pos + 10),
        ),
        _ => None,
    }
}

/// Patterns behind a host name, where there is one.
fn put_behind(hostname: &Option<String>, patterns: Vec<Vec<char>>) -> (r: Vec<Vec<char>>)
    ensures
        texts(r@) == behind(opt_text(*hostname), texts(patterns@)),
{
    match hostname {
        None => patterns,
        Some(h) => {
            let ghost all = behind(Some(h@), texts(patterns@));
            let mut r: Vec<Vec<char>> = Vec::new();
            let mut i: usize = 0;
            assert(texts(r@) =~= all.take(0));
            while i < patterns.len()
                invariant
                    i <= patterns@.len(),
                    all == behind(Some(h@), texts(patterns@)),
                    texts(r@) == all.take(i as int),
                decreases patterns@.len() - i,
            {
                let ghost before = texts(r@);
                let mut pattern = chars_of(h.as_str());
                extend(&mut pattern, patterns[i].as_slice());
                let ghost text = pattern@;
                r.push(pattern);
                assert(texts(r@) =~= before.push(text));
                assert(text == all[i as int]);
                i += 1;
                assert(texts(r@) =~= all.take(i as int));
            }
            assert(all.take(i as int) =~= all);
            r
        },
    }
}

/// Reads a rule.
fn read_rule(tokens: &Vec<Token>, pos: usize) -> (r: Option<(NetworkFilter, usize)>)
    requires
        pos <= tokens@.len(),
    ensures
        match r {
            Some((rule, next)) => {
                &&& pos <= next <= tokens@.len()
                &&& take_rule(rest(tokens@, pos as int)) == Some(
                    (rule@, rest(tokens@, next as int)),
                )
            },
            None => take_rule(rest(tokens@, pos as int)) is None,
        },
{
    let (mask, p1) = match read_mask(tokens, pos) {
        Some((mask, next)) => (mask, next),
        None => {
            return None;
        },
    };
    let (patterns, p2) = match read_patterns(tokens, p1) {
        Some((patterns, next)) => (patterns, next),
        None => {
            return None;
        },
    };
    let (domains, p3) = match read_names(tokens, p2) {
        Some((domains, next)) => (domains, next),
        None => {
            return None;
        },
    };
    let (not_domains, p4) = match read_names(tokens, p3) {
        Some((not_domains, next)) => (not_domains, next),
        None => {
            return None;
        },
    };
    match read_tail(tokens, p4) {
        Some((tail, next)) => Some(
            (
                NetworkFilter {
                    mask,
                    patterns: put_behind(&tail.hostname, patterns),
                    domains,
                    not_domains,
                    redirect: tail.redirect,
                    csp: tail.csp,
                    tag: tail.tag,
                    raw_line: tail.raw_line,
                },
                next,
            ),
        ),
        None => None,
    }
}

/// A rule.
pub struct RuleForm {}

impl Form for RuleForm {
    type Value = NetworkFilter;

    type Model = NetworkRule;

    open spec fn model(value: NetworkFilter) -> NetworkRule {
        value@
    }

    open spec fn writer() -> spec_fn(NetworkRule) -> Seq<Item> {
        rule_writer()
    }

    open spec fn taker() -> spec_fn(Seq<Item>) -> Option<(NetworkRule, Seq<Item>)> {
        rule_taker()
    }

    fn put(out: &mut Vec<Token>, value: &NetworkFilter) {
        push_rule(out, value);
        assert(items(out@) =~= items(old(out)@) + (Self::writer())(Self::model(*value)));
    }

    fn fetch(tokens: &Vec<Token>, pos: usize) -> (r: Option<(NetworkFilter, usize)>) {
        read_rule(tokens, pos)
    }
}

/// Writes a list of rules.
pub fn push_rules(out: &mut Vec<Token>, list: &Vec<NetworkFilter>)
    ensures
        items(final(out)@) == items(old(out)@) + rules_items(rules(list@)),
{
    put_list::<RuleForm>(out, list);
    assert(models::<RuleForm>(list@) =~= rules(list@));
}

/// Reads a list of rules.
pub fn read_rules(tokens: &Vec<Token>, pos: usize) -> (r: Option<(Vec<NetworkFilter>, usize)>)
    requires
        pos <= tokens@.len(),
    ensures
        match r {
            Some((list, next)) => {
                &&& pos <= next <= tokens@.len()
                &&& take_rules(rest(tokens@, pos as int)) == Some(
                    (rules(list@), rest(tokens@, next as int)),
                )
            },
            None => take_rules(rest(tokens@, pos as int)) is None,
        },
{
    match fetch_list::<RuleForm>(tokens, pos) {
        Some((list, next)) => {
            assert(models::<RuleForm>(list@) =~= rules(list@));
            Some((list, next))
        },
        None => None,
    }
}

/// Writes a cosmetic rule.
fn push_cosmetic(out: &mut Vec<Token>, rule: &CosmeticFilter)
    ensures
        items(final(out)@) == items(old(out)@) + cosmetic_items(rule@),
{
    let ghost base = items(out@);
    push_one(out, Token::Array(6));
    push_one(out, Token::Bool(rule.unhide));
    push_one(out, Token::Bool(rule.script && rule.style.is_none()));
    push_opt(out, &rule.style);
    push_one(out, Token::Text(rule.selector.clone()));
    push_texts(out, &rule.hosts);
    push_texts(out, &rule.not_hosts);
    assert(items(out@) =~= base + cosmetic_items(rule@));
}

/// Reads a cosmetic rule.
fn read_cosmetic(tokens: &Vec<Token>, pos: usize) -> (r: Option<(CosmeticFilter, usize)>)
    requires
        pos <= tokens@.len(),
    ensures
        match r {
            Some((rule, next)) => {
                &&& pos <= next <= tokens@.len()
                &&& take_cosmetic(rest(tokens@, pos as int)) == Some(
                    (rule@, rest(tokens@, next as int)),
                )
            },
            None => take_cosmetic(rest(tokens@, pos as int)) is None,
        },
{
    if tokens.len() - pos < 5 {
        return None;
    }
    proof {
        lemma_rest(tokens@, pos as int, 5);
    }
    let (unhide, script, selector) = match (
        &tokens[pos],
        &tokens[pos + 1],
        &tokens[pos + 2],
        &tokens[pos + 4],
    ) {
        (
            Token::Array(6),
            Token::Bool(unhide),
            Token::Bool(script),
            Token::Text(selector),
        ) => (*unhide, *script, selector.clone()),
        _ => {
            return None;
        },
    };
    let style = match opt_text_in(&tokens[pos + 3]) {
        Some(style) => style,
        None => {
            return None;
        },
    };
    let (hosts, p1) = match read_texts(tokens, pos + 5) {
        Some((hosts, next)) => (hosts, next),
        None => {
            return None;
        },
    };
    match read_texts(tokens, p1) {
        Some((not_hosts, next)) => Some(
            (CosmeticFilter { unhide, script, style, selector, hosts, not_hosts }, next),
        ),
        None => None,
    }
}

/// A cosmetic rule.
pub struct CosmeticForm {}

impl Form for CosmeticForm {
    type Value = CosmeticFilter;

    type Model = CosmeticRule;

    open spec fn model(value: CosmeticFilter) -> CosmeticRule {
        value@
    }

    open spec fn writer() -> spec_fn(CosmeticRule) -> Seq<Item> {
        cosmetic_writer()
    }

    open spec fn taker() -> spec_fn(Seq<Item>) -> Option<(CosmeticRule, Seq<Item>)> {
        cosmetic_taker()
    }

    fn put(out: &mut Vec<Token>, value: &CosmeticFilter) {
        push_cosmetic(out, value);
        assert(items(out@) =~= items(old(out)@) + (Self::writer())(Self::model(*value)));
    }

    fn fetch(tokens: &Vec<Token>, pos: usize) -> (r: Option<(CosmeticFilter, usize)>) {
        read_cosmetic(tokens, pos)
    }
}

/// Writes a list of cosmetic rules.
pub fn push_cosmetics(out: &mut Vec<Token>, list: &Vec<CosmeticFilter>)
    ensures
        items(final(out)@) == items(old(out)@) + cosmetics_items(cosmetic_rules(list@)),
{
    put_list::<CosmeticForm>(out, list);
    assert(models::<CosmeticForm>(list@) =~= cosmetic_rules(list@));
}

/// Reads a list of cosmetic rules.
pub fn read_cosmetics(tokens: &Vec<Token>, pos: usize) -> (r: Option<(Vec<CosmeticFilter>, usize)>)
    requires
        pos <= tokens@.len(),
    ensures
        match r {
            Some((list, next)) => {
                &&& pos <= next <= tokens@.len()
                &&& take_cosmetics(rest(tokens@, pos as int)) == Some(
                    (cosmetic_rules(list@), rest(tokens@, next as int)),
                )
            },
            None => take_cosmetics(rest(tokens@, pos as int)) is None,
        },
{
    match fetch_list::<CosmeticForm>(tokens, pos) {
        Some((list, next)) => {
            assert(models::<CosmeticForm>(list@) =~= cosmetic_rules(list@));
            Some((list, next))
        },
        None => None,
    }
}

fn read_resource(tokens: &Vec<Token>, pos: usize) -> (r: Option<
    ((String, RedirectResource), usize),
>)
    requires
        pos <= tokens@.len(),
    ensures
        match r {
            Some((pair, next)) => {
                &&& pos <= next <= tokens@.len()
                &&& take_resource(rest(tokens@, pos as int)) == Some(
                    ((pair.0@, pair.1@), rest(tokens@, next as int)),
                )
            },
            None => take_resource(rest(tokens@, pos as int)) is None,
        },
{
    if tokens.len() - pos < 4 {
        return None;
    }
    proof {
        lemma_rest(tokens@, pos as int, 4);
    }
    match (&tokens[pos], &tokens[pos + 1], &tokens[pos + 2], &tokens[pos + 3]) {
        (Token::Text(name), Token::Array(2), Token::Text(content_type), Token::Text(data)) => {
            let resource = RedirectResource {
                content_type: content_type.clone(),
                data: data.clone(),
            };
            Some(((name.clone(), resource), pos + 4))
        },
        _ => None,
    }
}

/// A resource under its name.
pub struct ResourceForm {}

impl Form for ResourceForm {
    type Value = (String, RedirectResource);

    type Model = (Seq<char>, RedirectModel);

    open spec fn model(value: (String, RedirectResource)) -> (Seq<char>, RedirectModel) {
        (value.0@, value.1@)
    }

    open spec fn writer() -> spec_fn((Seq<char>, RedirectModel)) -> Seq<Item> {
        resource_writer()
    }

    open spec fn taker() -> spec_fn(Seq<Item>) -> Option<((Seq<char>, RedirectModel), Seq<Item>)> {
        resource_taker()
    }

    fn put(out: &mut Vec<Token>, value: &(String, RedirectResource)) {
        push_one(out, Token::Text(value.0.clone()));
        push_one(out, Token::Array(2));
        push_one(out, Token::Text(value.1.content_type.clone()));
        push_one(out, Token::Text(value.1.data.clone()));
        assert(items(out@) =~= items(old(out)@) + (Self::writer())(Self::model(*value)));
    }

    fn fetch(tokens: &Vec<Token>, pos: usize) -> (r: Option<((String, RedirectResource), usize)>) {
        read_resource(tokens, pos)
    }
}

/// Writes a map from names to resources.
pub fn push_resources(out: &mut Vec<Token>, list: &Directory<RedirectResource>)
    ensures
        items(final(out)@) == items(old(out)@) + resources_items(list.pairs()),
{
    push_one(out, Token::Pairs(list.entries.len()));
    put_many::<ResourceForm>(out, &list.entries);
    assert(models::<ResourceForm>(list.entries@) =~= list.pairs());
    assert(items(out@) =~= items(old(out)@) + resources_items(list.pairs()));
}

/// Reads a map from names to resources.
pub fn read_resources(tokens: &Vec<Token>, pos: usize) -> (r: Option<(Directory<RedirectResource>, usize)>)
    requires
        pos <= tokens@.len(),
    ensures
        match r {
            Some((list, next)) => {
                &&& pos <= next <= tokens@.len()
                &&& take_resources(rest(tokens@, pos as int)) == Some(
                    (list.pairs(), rest(tokens@, next as int)),
                )
            },
            None => take_resources(rest(tokens@, pos as int)) is None,
        },
{
    if pos >= tokens.len() {
        return None;
    }
    proof {
        lemma_rest(tokens@, pos as int, 1);
    }
    match &tokens[pos] {
        Token::Pairs(n) => match fetch_many::<ResourceForm>(tokens, pos + 1, *n) {
            Some((entries, next)) => {
                let list = Directory { entries };
                assert(list.pairs() =~= models::<ResourceForm>(entries@));
                Some((list, next))
            },
            None => None,
        },
        _ => None,
    }
}

fn read_script(tokens: &Vec<Token>, pos: usize) -> (r: Option<((String, String), usize)>)
    requires
        pos <= tokens@.len(),
    ensures
        match r {
            Some((pair, next)) => {
                &&& pos <= next <= tokens@.len()
                &&& take_script(rest(tokens@, pos as int)) == Some(
                    ((pair.0@, pair.1@), rest(tokens@, next as int)),
                )
            },
            None => take_script(rest(tokens@, pos as int)) is None,
        },
{
    if tokens.len() - pos < 2 {
        return None;
    }
    proof {
        lemma_rest(tokens@, pos as int, 2);
    }
    match (&tokens[pos], &tokens[pos + 1]) {
        (Token::Text(name), Token::Text(script)) => Some(((name.clone(), script.clone()), pos + 2)),
        _ => None,
    }
}

/// A script under its name.
pub struct ScriptForm {}

impl Form for ScriptForm {
    type Value = (String, String);

    type Model = (Seq<char>, Seq<char>);

    open spec fn model(value: (String, String)) -> (Seq<char>, Seq<char>) {
        (value.0@, value.1@)
    }

    open spec fn writer() -> spec_fn((Seq<char>, Seq<char>)) -> Seq<Item> {
        script_writer()
    }

    open spec fn taker() -> spec_fn(Seq<Item>) -> Option<((Seq<char>, Seq<char>), Seq<Item>)> {
        script_taker()
    }

    fn put(out: &mut Vec<Token>, value: &(String, String)) {
        push_one(out, Token::Text(value.0.clone()));
        push_one(out, Token::Text(value.1.clone()));
        assert(items(out@) =~= items(old(out)@) + (Self::writer())(Self::model(*value)));
    }

    fn fetch(tokens: &Vec<Token>, pos: usize) -> (r: Option<((String, String), usize)>) {
        read_script(tokens, pos)
    }
}

/// Writes a map from names to scripts.
pub fn push_scripts(out: &mut Vec<Token>, list: &Directory<String>)
    ensures
        items(final(out)@) == items(old(out)@) + scripts_items(list.pairs()),
{
    push_one(out, Token::Pairs(list.entries.len()));
    put_many::<ScriptForm>(out, &list.entries);
    assert(models::<ScriptForm>(list.entries@) =~= list.pairs());
    assert(items(out@) =~= items(old(out)@) + scripts_items(list.pairs()));
}

/// Reads a map from names to scripts.
pub fn read_scripts(tokens: &Vec<Token>, pos: usize) -> (r: Option<(Directory<String>, usize)>)
    requires
        pos <= tokens@.len(),
    ensures
        match r {
            Some((list, next)) => {
                &&& pos <= next <= tokens@.len()
                &&& take_scripts(rest(tokens@, pos as int)) == Some(
                    (list.pairs(), rest(tokens@, next as int)),
                )
            },
            None => take_scripts(rest(tokens@, pos as int)) is None,
        },
{
    if pos >= tokens.len() {
        return None;
    }
    proof {
        lemma_rest(tokens@, pos as int, 1);
    }
    match &tokens[pos] {
        Token::Pairs(n) => match fetch_many::<ScriptForm>(tokens, pos + 1, *n) {
            Some((entries, next)) => {
                let list = Directory { entries };
                assert(list.pairs() =~= models::<ScriptForm>(entries@));
                Some((list, next))
            },
            None => None,
        },
        _ => None,
    }
}

} // verus!

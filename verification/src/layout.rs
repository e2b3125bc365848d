//! How rules and resources are laid out as MessagePack tokens.

use vstd::prelude::*;

use crate::filters::cosmetic::{CosmeticAction, CosmeticRule};
use crate::filters::network::{FilterMask, KindSet, NetworkRule};
use crate::msgpack::{items, Item, Token};
use crate::resources::RedirectModel;

verus! {

/// The tokens from a position on.
pub open spec fn rest(tokens: Seq<Token>, pos: int) -> Seq<Item> {
    items(tokens).skip(pos)
}

/// A text in front of a list, and what follows it.
pub open spec fn take_text(list: Seq<Item>) -> Option<(Seq<char>, Seq<Item>)> {
    if list.len() == 0 {
        None
    } else {
        match list[0] {
            Item::Text(s) => Some((s, list.skip(1))),
            _ => None,
        }
    }
}

/// How many values an array holds that opens in front of a list, and what
/// follows.
pub open spec fn take_array(list: Seq<Item>) -> Option<(nat, Seq<Item>)> {
    if list.len() == 0 {
        None
    } else {
        match list[0] {
            Item::Array(n) => Some((n, list.skip(1))),
            _ => None,
        }
    }
}

/// How many pairs a map holds that opens in front of a list, and what follows.
pub open spec fn take_pairs(list: Seq<Item>) -> Option<(nat, Seq<Item>)> {
    if list.len() == 0 {
        None
    } else {
        match list[0] {
            Item::Pairs(n) => Some((n, list.skip(1))),
            _ => None,
        }
    }
}

/// So many values in front of a list, one after the other, and what follows.
pub open spec fn take_many<T>(
    list: Seq<Item>,
    n: nat,
    f: spec_fn(Seq<Item>) -> Option<(T, Seq<Item>)>,
) -> Option<(Seq<T>, Seq<Item>)>
    decreases n,
{
    if n == 0 {
        Some((Seq::empty(), list))
    } else {
        match take_many(list, (n - 1) as nat, f) {
            Some((values, next)) => match f(next) {
                Some((value, last)) => Some((values.push(value), last)),
                None => None,
            },
            None => None,
        }
    }
}

/// The values of an array in front of a list, and what follows.
pub open spec fn take_list<T>(
    list: Seq<Item>,
    f: spec_fn(Seq<Item>) -> Option<(T, Seq<Item>)>,
) -> Option<(Seq<T>, Seq<Item>)> {
    match take_array(list) {
        Some((n, next)) => take_many(next, n, f),
        None => None,
    }
}

/// The tokens of values, one after the other.
pub open spec fn many_items<T>(values: Seq<T>, g: spec_fn(T) -> Seq<Item>) -> Seq<Item>
    decreases values.len(),
{
    if values.len() == 0 {
        Seq::empty()
    } else {
        many_items(values.drop_last(), g) + g(values.last())
    }
}

/// The tokens of an array.
pub open spec fn list_items<T>(values: Seq<T>, g: spec_fn(T) -> Seq<Item>) -> Seq<Item> {
    seq![Item::Array(values.len())] + many_items(values, g)
}

/// Where one value is missing, more are.
pub proof fn lemma_many_missing<T>(
    list: Seq<Item>,
    i: nat,
    n: nat,
    f: spec_fn(Seq<Item>) -> Option<(T, Seq<Item>)>,
)
    requires
        i <= n,
        take_many(list, i, f) is None,
    ensures
        take_many(list, n, f) is None,
    decreases n,
{
    if i < n {
        lemma_many_missing(list, i, (n - 1) as nat, f);
    }
}

/// What takes each value back from its tokens takes many back from theirs.
pub proof fn lemma_many<T>(
    values: Seq<T>,
    g: spec_fn(T) -> Seq<Item>,
    f: spec_fn(Seq<Item>) -> Option<(T, Seq<Item>)>,
    after: Seq<Item>,
)
    requires
        forall|x: T, r: Seq<Item>| #[trigger] f(g(x) + r) == Some((x, r)),
    ensures
        take_many(many_items(values, g) + after, values.len(), f) == Some((values, after)),
    decreases values.len(),
{
    if values.len() == 0 {
        assert(many_items(values, g) + after =~= after);
        assert(values =~= Seq::empty());
    } else {
        let front = values.drop_last();
        let next = g(values.last()) + after;
        lemma_many(front, g, f, next);
        assert(many_items(values, g) + after =~= many_items(front, g) + next);
        assert(front.push(values.last()) =~= values);
    }
}

/// What takes each value back from its tokens takes an array back from its own.
pub proof fn lemma_list<T>(
    values: Seq<T>,
    g: spec_fn(T) -> Seq<Item>,
    f: spec_fn(Seq<Item>) -> Option<(T, Seq<Item>)>,
    after: Seq<Item>,
)
    requires
        forall|x: T, r: Seq<Item>| #[trigger] f(g(x) + r) == Some((x, r)),
    ensures
        take_list(list_items(values, g) + after, f) == Some((values, after)),
{
    let all = list_items(values, g) + after;
    lemma_many(values, g, f, after);
    assert(all[0] == Item::Array(values.len()));
    assert(all.skip(1) =~= many_items(values, g) + after);
}

/// What writes a text.
pub open spec fn text_items() -> spec_fn(Seq<char>) -> Seq<Item> {
    |s: Seq<char>| seq![Item::Text(s)]
}

/// What takes a text.
pub open spec fn text_taker() -> spec_fn(Seq<Item>) -> Option<(Seq<char>, Seq<Item>)> {
    |list: Seq<Item>| take_text(list)
}

/// The tokens of a list of texts.
pub open spec fn texts_items(list: Seq<Seq<char>>) -> Seq<Item> {
    list_items(list, text_items())
}

/// A list of texts in front of a list.
pub open spec fn take_texts(list: Seq<Item>) -> Option<(Seq<Seq<char>>, Seq<Item>)> {
    take_list(list, text_taker())
}

/// A list of texts can be read back from its tokens.
pub proof fn lemma_texts(list: Seq<Seq<char>>, after: Seq<Item>)
    ensures
        take_texts(texts_items(list) + after) == Some((list, after)),
{
    let g = text_items();
    let f = text_taker();
    assert forall|x: Seq<char>, r: Seq<Item>| #[trigger] f(g(x) + r) == Some((x, r)) by {
        assert((g(x) + r).skip(1) =~= r);
        assert((g(x) + r)[0] == Item::Text(x));
    }
    lemma_list(list, g, f, after);
}

/// A flag as a bit of a number.
#[verifier::opaque]
pub open spec fn bit(b: bool, value: u32) -> u32 {
    if b {
        value
    } else {
        0
    }
}

/// A number has a bit.
pub open spec fn has_bit(x: u32, value: u32) -> bool {
    x & value != 0
}

/// The bits for the kinds of request in one number.
#[verifier::opaque]
pub open spec fn pack_kinds(
    image: u32,
    media: u32,
    object: u32,
    other: u32,
    ping: u32,
    script: u32,
    stylesheet: u32,
    subdocument: u32,
    websocket: u32,
    xmlhttprequest: u32,
    font: u32,
    document: u32,
) -> u32 {
    image | media | object | other | ping | script | stylesheet | subdocument | websocket |
        xmlhttprequest | font | document
}

/// The bits for what else a request has to be like.
#[verifier::opaque]
pub open spec fn pack_scope(
    http: u32,
    https: u32,
    important: u32,
    match_case: u32,
    third_party: u32,
    first_party: u32,
) -> u32 {
    http | https | important | match_case | third_party | first_party
}

/// The bits for how a rule matches and what it does.
#[verifier::opaque]
pub open spec fn pack_role(
    left_anchor: u32,
    right_anchor: u32,
    hostname_anchor: u32,
    exception: u32,
    csp: u32,
    regex: u32,
    bad_filter: u32,
    generic_hide: u32,
    redirect_only: u32,
) -> u32 {
    left_anchor | right_anchor | hostname_anchor | exception | csp | regex | bad_filter |
        generic_hide | redirect_only
}

/// The kinds of request of a rule as bits.
pub open spec fn kind_bits(k: KindSet) -> u32 {
    pack_kinds(
        bit(k.image, 0x1),
        bit(k.media, 0x2),
        bit(k.object, 0x4),
        bit(k.other, 0x8),
        bit(k.ping, 0x10),
        bit(k.script, 0x20),
        bit(k.stylesheet, 0x40),
        bit(k.subdocument, 0x80),
        bit(k.websocket, 0x100),
        bit(k.xmlhttprequest, 0x200),
        bit(k.font, 0x400),
        bit(k.document, 0x2000_0000),
    )
}

/// What else a request has to be like, as bits.
pub open spec fn scope_bits(m: FilterMask) -> u32 {
    pack_scope(
        bit(m.http, 0x800),
        bit(m.https, 0x1000),
        bit(m.important, 0x2000),
        bit(m.match_case, 0x4000),
        bit(m.third_party, 0x1_0000),
        bit(m.first_party, 0x2_0000),
    )
}

/// How a rule matches and what it does, as bits.
pub open spec fn role_bits(m: FilterMask) -> u32 {
    pack_role(
        bit(m.left_anchor, 0x8_0000),
        bit(m.right_anchor, 0x10_0000),
        bit(m.hostname_anchor, 0x20_0000),
        bit(m.exception, 0x40_0000),
        bit(m.csp, 0x80_0000),
        bit(m.regex, 0x100_0000),
        bit(m.bad_filter, 0x800_0000),
        bit(m.generic_hide, 0x4000_0000),
        bit(m.redirect_only, 0x8000_0000),
    )
}

/// The options of a rule as bits.
pub open spec fn mask_bits(m: FilterMask) -> u32 {
    kind_bits(m.kinds) | scope_bits(m) | role_bits(m)
}

/// The options that bits stand for. Bits that stand for none are passed over.
pub open spec fn mask_of(x: u32) -> FilterMask {
    FilterMask {
        kinds: KindSet {
            image: has_bit(x, 0x1),
            media: has_bit(x, 0x2),
            object: has_bit(x, 0x4),
            other: has_bit(x, 0x8),
            ping: has_bit(x, 0x10),
            script: has_bit(x, 0x20),
            stylesheet: has_bit(x, 0x40),
            subdocument: has_bit(x, 0x80),
            websocket: has_bit(x, 0x100),
            xmlhttprequest: has_bit(x, 0x200),
            font: has_bit(x, 0x400),
            document: has_bit(x, 0x2000_0000),
        },
        http: has_bit(x, 0x800),
        https: has_bit(x, 0x1000),
        third_party: has_bit(x, 0x1_0000),
        first_party: has_bit(x, 0x2_0000),
        important: has_bit(x, 0x2000),
        match_case: has_bit(x, 0x4000),
        left_anchor: has_bit(x, 0x8_0000),
        right_anchor: has_bit(x, 0x10_0000),
        hostname_anchor: has_bit(x, 0x20_0000),
        regex: has_bit(x, 0x100_0000),
        exception: has_bit(x, 0x40_0000),
        csp: has_bit(x, 0x80_0000),
        generic_hide: has_bit(x, 0x4000_0000),
        bad_filter: has_bit(x, 0x800_0000),
        redirect_only: has_bit(x, 0x8000_0000),
    }
}

proof fn lemma_pack_kinds(
    image: u32,
    media: u32,
    object: u32,
    other: u32,
    ping: u32,
    script: u32,
    stylesheet: u32,
    subdocument: u32,
    websocket: u32,
    xmlhttprequest: u32,
    font: u32,
    document: u32,
)
    by (bit_vector)
    requires
        image == 0 || image == 0x1,
        media == 0 || media == 0x2,
        object == 0 || object == 0x4,
        other == 0 || other == 0x8,
        ping == 0 || ping == 0x10,
        script == 0 || script == 0x20,
        stylesheet == 0 || stylesheet == 0x40,
        subdocument == 0 || subdocument == 0x80,
        websocket == 0 || websocket == 0x100,
        xmlhttprequest == 0 || xmlhttprequest == 0x200,
        font == 0 || font == 0x400,
        document == 0 || document == 0x2000_0000,
    ensures
        ({
            let x = pack_kinds(
                image,
                media,
                object,
                other,
                ping,
                script,
                stylesheet,
                subdocument,
                websocket,
                xmlhttprequest,
                font,
                document,
            );
            &&& x & !0x2000_07ffu32 == 0
            &&& x & 0x1 == image
            &&& x & 0x2 == media
            &&& x & 0x4 == object
            &&& x & 0x8 == other
            &&& x & 0x10 == ping
            &&& x & 0x20 == script
            &&& x & 0x40 == stylesheet
            &&& x & 0x80 == subdocument
            &&& x & 0x100 == websocket
            &&& x & 0x200 == xmlhttprequest
            &&& x & 0x400 == font
            &&& x & 0x2000_0000 == document
        }),
{
}

proof fn lemma_pack_scope(
    http: u32,
    https: u32,
    important: u32,
    match_case: u32,
    third_party: u32,
    first_party: u32,
)
    by (bit_vector)
    requires
        http == 0 || http == 0x800,
        https == 0 || https == 0x1000,
        important == 0 || important == 0x2000,
        match_case == 0 || match_case == 0x4000,
        third_party == 0 || third_party == 0x1_0000,
        first_party == 0 || first_party == 0x2_0000,
    ensures
        ({
            let x = pack_scope(
                http,
                https,
                important,
                match_case,
                third_party,
                first_party,
            );
            &&& x & !0x3_7800u32 == 0
            &&& x & 0x800 == http
            &&& x & 0x1000 == https
            &&& x & 0x2000 == important
            &&& x & 0x4000 == match_case
            &&& x & 0x1_0000 == third_party
            &&& x & 0x2_0000 == first_party
        }),
{
}

proof fn lemma_pack_role(
    left_anchor: u32,
    right_anchor: u32,
    hostname_anchor: u32,
    exception: u32,
    csp: u32,
    regex: u32,
    bad_filter: u32,
    generic_hide: u32,
    redirect_only: u32,
)
    by (bit_vector)
    requires
        left_anchor == 0 || left_anchor == 0x8_0000,
        right_anchor == 0 || right_anchor == 0x10_0000,
        hostname_anchor == 0 || hostname_anchor == 0x20_0000,
        exception == 0 || exception == 0x40_0000,
        csp == 0 || csp == 0x80_0000,
        regex == 0 || regex == 0x100_0000,
        bad_filter == 0 || bad_filter == 0x800_0000,
        generic_hide == 0 || generic_hide == 0x4000_0000,
        redirect_only == 0 || redirect_only == 0x8000_0000,
    ensures
        ({
            let x = pack_role(
                left_anchor,
                right_anchor,
                hostname_anchor,
                exception,
                csp,
                regex,
                bad_filter,
                generic_hide,
                redirect_only,
            );
            &&& x & !0xc9f8_0000u32 == 0
            &&& x & 0x8_0000 == left_anchor
            &&& x & 0x10_0000 == right_anchor
            &&& x & 0x20_0000 == hostname_anchor
            &&& x & 0x40_0000 == exception
            &&& x & 0x80_0000 == csp
            &&& x & 0x100_0000 == regex
            &&& x & 0x800_0000 == bad_filter
            &&& x & 0x4000_0000 == generic_hide
            &&& x & 0x8000_0000 == redirect_only
        }),
{
}

proof fn lemma_bit(b: bool, value: u32)
    requires
        value != 0,
    ensures
        bit(b, value) == 0 || bit(b, value) == value,
        bit(b, value) != 0 <==> b,
{
    reveal(bit);
}

proof fn lemma_kind_bits(k: KindSet)
    ensures
        kind_bits(k) & !0x2000_07ffu32 == 0,
        has_bit(kind_bits(k), 0x1) == k.image,
        has_bit(kind_bits(k), 0x2) == k.media,
        has_bit(kind_bits(k), 0x4) == k.object,
        has_bit(kind_bits(k), 0x8) == k.other,
        has_bit(kind_bits(k), 0x10) == k.ping,
        has_bit(kind_bits(k), 0x20) == k.script,
        has_bit(kind_bits(k), 0x40) == k.stylesheet,
        has_bit(kind_bits(k), 0x80) == k.subdocument,
        has_bit(kind_bits(k), 0x100) == k.websocket,
        has_bit(kind_bits(k), 0x200) == k.xmlhttprequest,
        has_bit(kind_bits(k), 0x400) == k.font,
        has_bit(kind_bits(k), 0x2000_0000) == k.document,
{
    lemma_bit(k.image, 0x1);
    lemma_bit(k.media, 0x2);
    lemma_bit(k.object, 0x4);
    lemma_bit(k.other, 0x8);
    lemma_bit(k.ping, 0x10);
    lemma_bit(k.script, 0x20);
    lemma_bit(k.stylesheet, 0x40);
    lemma_bit(k.subdocument, 0x80);
    lemma_bit(k.websocket, 0x100);
    lemma_bit(k.xmlhttprequest, 0x200);
    lemma_bit(k.font, 0x400);
    lemma_bit(k.document, 0x2000_0000);
    lemma_pack_kinds(
        bit(k.image, 0x1),
        bit(k.media, 0x2),
        bit(k.object, 0x4),
        bit(k.other, 0x8),
        bit(k.ping, 0x10),
        bit(k.script, 0x20),
        bit(k.stylesheet, 0x40),
        bit(k.subdocument, 0x80),
        bit(k.websocket, 0x100),
        bit(k.xmlhttprequest, 0x200),
        bit(k.font, 0x400),
        bit(k.document, 0x2000_0000),
    );
}

proof fn lemma_scope_bits(m: FilterMask)
    ensures
        scope_bits(m) & !0x3_7800u32 == 0,
        has_bit(scope_bits(m), 0x800) == m.http,
        has_bit(scope_bits(m), 0x1000) == m.https,
        has_bit(scope_bits(m), 0x2000) == m.important,
        has_bit(scope_bits(m), 0x4000) == m.match_case,
        has_bit(scope_bits(m), 0x1_0000) == m.third_party,
        has_bit(scope_bits(m), 0x2_0000) == m.first_party,
{
    lemma_bit(m.http, 0x800);
    lemma_bit(m.https, 0x1000);
    lemma_bit(m.important, 0x2000);
    lemma_bit(m.match_case, 0x4000);
    lemma_bit(m.third_party, 0x1_0000);
    lemma_bit(m.first_party, 0x2_0000);
    lemma_pack_scope(
        bit(m.http, 0x800),
        bit(m.https, 0x1000),
        bit(m.important, 0x2000),
        bit(m.match_case, 0x4000),
        bit(m.third_party, 0x1_0000),
        bit(m.first_party, 0x2_0000),
    );
}

proof fn lemma_role_bits(m: FilterMask)
    ensures
        role_bits(m) & !0xc9f8_0000u32 == 0,
        has_bit(role_bits(m), 0x8_0000) == m.left_anchor,
        has_bit(role_bits(m), 0x10_0000) == m.right_anchor,
        has_bit(role_bits(m), 0x20_0000) == m.hostname_anchor,
        has_bit(role_bits(m), 0x40_0000) == m.exception,
        has_bit(role_bits(m), 0x80_0000) == m.csp,
        has_bit(role_bits(m), 0x100_0000) == m.regex,
        has_bit(role_bits(m), 0x800_0000) == m.bad_filter,
        has_bit(role_bits(m), 0x4000_0000) == m.generic_hide,
        has_bit(role_bits(m), 0x8000_0000) == m.redirect_only,
{
    lemma_bit(m.left_anchor, 0x8_0000);
    lemma_bit(m.right_anchor, 0x10_0000);
    lemma_bit(m.hostname_anchor, 0x20_0000);
    lemma_bit(m.exception, 0x40_0000);
    lemma_bit(m.csp, 0x80_0000);
    lemma_bit(m.regex, 0x100_0000);
    lemma_bit(m.bad_filter, 0x800_0000);
    lemma_bit(m.generic_hide, 0x4000_0000);
    lemma_bit(m.redirect_only, 0x8000_0000);
    lemma_pack_role(
        bit(m.left_anchor, 0x8_0000),
        bit(m.right_anchor, 0x10_0000),
        bit(m.hostname_anchor, 0x20_0000),
        bit(m.exception, 0x40_0000),
        bit(m.csp, 0x80_0000),
        bit(m.regex, 0x100_0000),
        bit(m.bad_filter, 0x800_0000),
        bit(m.generic_hide, 0x4000_0000),
        bit(m.redirect_only, 0x8000_0000),
    );
}

proof fn lemma_apart(kinds: u32, scope: u32, role: u32)
    by (bit_vector)
    requires
        kinds & !0x2000_07ffu32 == 0,
        scope & !0x3_7800u32 == 0,
        role & !0xc9f8_0000u32 == 0,
    ensures
        ({
            let x = kinds | scope | role;
            &&& has_bit(x, 0x1) == has_bit(kinds, 0x1)
            &&& has_bit(x, 0x2) == has_bit(kinds, 0x2)
            &&& has_bit(x, 0x4) == has_bit(kinds, 0x4)
            &&& has_bit(x, 0x8) == has_bit(kinds, 0x8)
            &&& has_bit(x, 0x10) == has_bit(kinds, 0x10)
            &&& has_bit(x, 0x20) == has_bit(kinds, 0x20)
            &&& has_bit(x, 0x40) == has_bit(kinds, 0x40)
            &&& has_bit(x, 0x80) == has_bit(kinds, 0x80)
            &&& has_bit(x, 0x100) == has_bit(kinds, 0x100)
            &&& has_bit(x, 0x200) == has_bit(kinds, 0x200)
            &&& has_bit(x, 0x400) == has_bit(kinds, 0x400)
            &&& has_bit(x, 0x2000_0000) == has_bit(kinds, 0x2000_0000)
            &&& has_bit(x, 0x800) == has_bit(scope, 0x800)
            &&& has_bit(x, 0x1000) == has_bit(scope, 0x1000)
            &&& has_bit(x, 0x2000) == has_bit(scope, 0x2000)
            &&& has_bit(x, 0x4000) == has_bit(scope, 0x4000)
            &&& has_bit(x, 0x1_0000) == has_bit(scope, 0x1_0000)
            &&& has_bit(x, 0x2_0000) == has_bit(scope, 0x2_0000)
            &&& has_bit(x, 0x8_0000) == has_bit(role, 0x8_0000)
            &&& has_bit(x, 0x10_0000) == has_bit(role, 0x10_0000)
            &&& has_bit(x, 0x20_0000) == has_bit(role, 0x20_0000)
            &&& has_bit(x, 0x40_0000) == has_bit(role, 0x40_0000)
            &&& has_bit(x, 0x80_0000) == has_bit(role, 0x80_0000)
            &&& has_bit(x, 0x100_0000) == has_bit(role, 0x100_0000)
            &&& has_bit(x, 0x800_0000) == has_bit(role, 0x800_0000)
            &&& has_bit(x, 0x4000_0000) == has_bit(role, 0x4000_0000)
            &&& has_bit(x, 0x8000_0000) == has_bit(role, 0x8000_0000)
        }),
{
}

/// Options can be read back from their bits.
pub proof fn lemma_mask_bits(m: FilterMask)
    ensures
        mask_of(mask_bits(m)) == m,
{
    lemma_kind_bits(m.kinds);
    lemma_scope_bits(m);
    lemma_role_bits(m);
    lemma_apart(kind_bits(m.kinds), scope_bits(m), role_bits(m));
}

/// A token holds a text or nothing.
pub open spec fn is_opt_text(item: Item) -> bool {
    item is Nil || item is Text
}

/// The text that a token holds, where it holds one.
pub open spec fn opt_text_of(item: Item) -> Option<Seq<char>> {
    match item {
        Item::Text(s) => Some(s),
        _ => None,
    }
}

/// The token for a text that may be missing.
pub open spec fn opt_text_item(s: Option<Seq<char>>) -> Item {
    match s {
        Some(s) => Item::Text(s),
        None => Item::Nil,
    }
}

/// A token that is passed over holds a number or nothing.
pub open spec fn is_passed_over(item: Item) -> bool {
    item is Nil || item is UInt
}

/// Nothing, for no texts, or a list of texts.
pub open spec fn take_names(list: Seq<Item>) -> Option<(Seq<Seq<char>>, Seq<Item>)> {
    if list.len() > 0 && list[0] is Nil {
        Some((Seq::empty(), list.skip(1)))
    } else {
        take_texts(list)
    }
}

/// The options of a rule: what opens the rule, then the options as bits in an
/// array of one.
pub open spec fn take_mask(list: Seq<Item>) -> Option<(FilterMask, Seq<Item>)> {
    if list.len() < 3 || list[0] != Item::Array(14) || list[1] != Item::Array(1) {
        None
    } else {
        match list[2] {
            Item::UInt(x) => if x <= u32::MAX {
                Some((mask_of(x as u32), list.skip(3)))
            } else {
                None
            },
            _ => None,
        }
    }
}

/// The patterns of a rule: a pair of a number and an array, which holds nothing
/// for 0, a pattern for 1 and a list of patterns for 2.
pub open spec fn take_patterns(list: Seq<Item>) -> Option<(Seq<Seq<char>>, Seq<Item>)> {
    if list.len() < 3 || list[0] != Item::Array(2) {
        None
    } else if list[1] == Item::UInt(0) && list[2] == Item::Array(0) {
        Some((seq![Seq::empty()], list.skip(3)))
    } else if list[1] == Item::UInt(1) && list[2] == Item::Array(1) {
        match take_text(list.skip(3)) {
            Some((s, next)) => Some((seq![s], next)),
            None => None,
        }
    } else if list[1] == Item::UInt(2) && list[2] == Item::Array(1) {
        take_texts(list.skip(3))
    } else {
        None
    }
}

/// What a rule ends in.
#[verifier::ext_equal]
pub struct TailModel {
    pub redirect: Option<Seq<char>>,
    pub hostname: Option<Seq<char>>,
    pub csp: Option<Seq<char>>,
    pub tag: Option<Seq<char>>,
    pub raw_line: Option<Seq<char>>,
}

/// What a rule ends in. The fourth of the tokens and the last four are passed
/// over.
pub open spec fn take_tail(list: Seq<Item>) -> Option<(TailModel, Seq<Item>)> {
    if list.len() >= 10 && is_opt_text(list[0]) && is_opt_text(list[1]) && is_opt_text(list[2])
        && is_passed_over(list[3]) && is_opt_text(list[4]) && is_opt_text(list[5])
        && is_passed_over(list[6]) && is_passed_over(list[7]) && is_passed_over(list[8])
        && is_passed_over(list[9]) {
        Some(
            (
                TailModel {
                    redirect: opt_text_of(list[0]),
                    hostname: opt_text_of(list[1]),
                    csp: opt_text_of(list[2]),
                    tag: opt_text_of(list[4]),
                    raw_line: opt_text_of(list[5]),
                },
                list.skip(10),
            ),
        )
    } else {
        None
    }
}

/// Patterns behind a host name, where there is one.
pub open spec fn behind(hostname: Option<Seq<char>>, patterns: Seq<Seq<char>>) -> Seq<Seq<char>> {
    match hostname {
        Some(h) => patterns.map_values(|p: Seq<char>| h + p),
        None => patterns,
    }
}

/// A rule in front of a list.
pub open spec fn take_rule(list: Seq<Item>) -> Option<(NetworkRule, Seq<Item>)> {
    match take_mask(list) {
        Some((mask, l1)) => match take_patterns(l1) {
            Some((patterns, l2)) => match take_names(l2) {
                Some((domains, l3)) => match take_names(l3) {
                    Some((not_domains, l4)) => match take_tail(l4) {
                        Some((tail, l5)) => Some(
                            (
                                NetworkRule {
                                    mask,
                                    patterns: behind(tail.hostname, patterns),
                                    domains,
                                    not_domains,
                                    redirect: tail.redirect,
                                    csp: tail.csp,
                                    tag: tail.tag,
                                    raw_line: tail.raw_line,
                                },
                                l5,
                            ),
                        ),
                        None => None,
                    },
                    None => None,
                },
                None => None,
            },
            None => None,
        },
        None => None,
    }
}

/// The tokens that a rule ends in.
pub open spec fn tail_items(rule: NetworkRule) -> Seq<Item> {
    seq![
        opt_text_item(rule.redirect),
        Item::Nil,
        opt_text_item(rule.csp),
        Item::Nil,
        opt_text_item(rule.tag),
        opt_text_item(rule.raw_line),
        Item::UInt(0),
        Item::Nil,
        Item::Nil,
        Item::Nil,
    ]
}

/// The tokens of a rule.
pub open spec fn rule_items(rule: NetworkRule) -> Seq<Item> {
    seq![
        Item::Array(14),
        Item::Array(1),
        Item::UInt(mask_bits(rule.mask) as u64),
        Item::Array(2),
        Item::UInt(2),
        Item::Array(1),
    ] + texts_items(rule.patterns) + texts_items(rule.domains) + texts_items(rule.not_domains)
        + tail_items(rule)
}

proof fn lemma_names(list: Seq<Seq<char>>, after: Seq<Item>)
    ensures
        take_names(texts_items(list) + after) == Some((list, after)),
{
    lemma_texts(list, after);
    assert((texts_items(list) + after)[0] == Item::Array(list.len()));
}

/// A rule can be read back from its tokens.
pub proof fn lemma_rule(rule: NetworkRule, after: Seq<Item>)
    ensures
        take_rule(rule_items(rule) + after) == Some((rule, after)),
{
    let l0 = rule_items(rule) + after;
    let l4 = tail_items(rule) + after;
    let l3 = texts_items(rule.not_domains) + l4;
    let l2 = texts_items(rule.domains) + l3;
    let l11 = texts_items(rule.patterns) + l2;
    let l1 = seq![Item::Array(2), Item::UInt(2), Item::Array(1)] + l11;
    assert(l0 =~= seq![
        Item::Array(14),
        Item::Array(1),
        Item::UInt(mask_bits(rule.mask) as u64),
    ] + l1);
    assert(l0.skip(3) =~= l1);
    lemma_mask_bits(rule.mask);
    assert(take_mask(l0) == Some((rule.mask, l1)));
    assert(l1.skip(3) =~= l11);
    lemma_texts(rule.patterns, l2);
    assert(take_patterns(l1) == Some((rule.patterns, l2)));
    lemma_names(rule.domains, l3);
    lemma_names(rule.not_domains, l4);
    assert(l4.skip(10) =~= after);
}

/// A cosmetic rule in front of a list.
pub open spec fn take_cosmetic(list: Seq<Item>) -> Option<(CosmeticRule, Seq<Item>)> {
    if list.len() < 5 || list[0] != Item::Array(6) || !(list[1] is Bool) || !(list[2] is Bool)
        || !is_opt_text(list[3]) || !(list[4] is Text) {
        None
    } else {
        match take_texts(list.skip(5)) {
            Some((hosts, next)) => match take_texts(next) {
                Some((not_hosts, last)) => Some(
                    (
                        CosmeticRule {
                            unhide: list[1]->Bool_0,
                            action: match list[3] {
                                Item::Text(style) => CosmeticAction::Style(style),
                                _ => if list[2]->Bool_0 {
                                    CosmeticAction::Script
                                } else {
                                    CosmeticAction::Hide
                                },
                            },
                            selector: list[4]->Text_0,
                            hosts,
                            not_hosts,
                        },
                        last,
                    ),
                ),
                None => None,
            },
            None => None,
        }
    }
}

/// The tokens of a cosmetic rule.
pub open spec fn cosmetic_items(rule: CosmeticRule) -> Seq<Item> {
    seq![
        Item::Array(6),
        Item::Bool(rule.unhide),
        Item::Bool(rule.action is Script),
        match rule.action {
            CosmeticAction::Style(style) => Item::Text(style),
            _ => Item::Nil,
        },
        Item::Text(rule.selector),
    ] + texts_items(rule.hosts) + texts_items(rule.not_hosts)
}

/// A cosmetic rule can be read back from its tokens.
pub proof fn lemma_cosmetic(rule: CosmeticRule, after: Seq<Item>)
    ensures
        take_cosmetic(cosmetic_items(rule) + after) == Some((rule, after)),
{
    let l0 = cosmetic_items(rule) + after;
    let l2 = texts_items(rule.not_hosts) + after;
    let l1 = texts_items(rule.hosts) + l2;
    assert(l0.skip(5) =~= l1);
    lemma_texts(rule.hosts, l2);
    lemma_texts(rule.not_hosts, after);
}

/// A resource under its name in front of a list.
pub open spec fn take_resource(list: Seq<Item>) -> Option<
    ((Seq<char>, RedirectModel), Seq<Item>),
> {
    if list.len() < 4 || !(list[0] is Text) || list[1] != Item::Array(2) || !(list[2] is Text)
        || !(list[3] is Text) {
        None
    } else {
        Some(
            (
                (
                    list[0]->Text_0,
                    RedirectModel { content_type: list[2]->Text_0, data: list[3]->Text_0 },
                ),
                list.skip(4),
            ),
        )
    }
}

/// The tokens of a resource under its name.
pub open spec fn resource_items(pair: (Seq<char>, RedirectModel)) -> Seq<Item> {
    seq![
        Item::Text(pair.0),
        Item::Array(2),
        Item::Text(pair.1.content_type),
        Item::Text(pair.1.data),
    ]
}

/// A script under its name in front of a list.
pub open spec fn take_script(list: Seq<Item>) -> Option<((Seq<char>, Seq<char>), Seq<Item>)> {
    if list.len() < 2 || !(list[0] is Text) || !(list[1] is Text) {
        None
    } else {
        Some(((list[0]->Text_0, list[1]->Text_0), list.skip(2)))
    }
}

/// The tokens of a script under its name.
pub open spec fn script_items(pair: (Seq<char>, Seq<char>)) -> Seq<Item> {
    seq![Item::Text(pair.0), Item::Text(pair.1)]
}

/// What writes a rule.
pub open spec fn rule_writer() -> spec_fn(NetworkRule) -> Seq<Item> {
    |r: NetworkRule| rule_items(r)
}

/// What takes a rule.
pub open spec fn rule_taker() -> spec_fn(Seq<Item>) -> Option<(NetworkRule, Seq<Item>)> {
    |list: Seq<Item>| take_rule(list)
}

/// What writes a cosmetic rule.
pub open spec fn cosmetic_writer() -> spec_fn(CosmeticRule) -> Seq<Item> {
    |r: CosmeticRule| cosmetic_items(r)
}

/// What takes a cosmetic rule.
pub open spec fn cosmetic_taker() -> spec_fn(Seq<Item>) -> Option<(CosmeticRule, Seq<Item>)> {
    |list: Seq<Item>| take_cosmetic(list)
}

/// What writes a resource under its name.
pub open spec fn resource_writer() -> spec_fn((Seq<char>, RedirectModel)) -> Seq<Item> {
    |p: (Seq<char>, RedirectModel)| resource_items(p)
}

/// What takes a resource under its name.
pub open spec fn resource_taker() -> spec_fn(Seq<Item>) -> Option<
    ((Seq<char>, RedirectModel), Seq<Item>),
> {
    |list: Seq<Item>| take_resource(list)
}

/// What writes a script under its name.
pub open spec fn script_writer() -> spec_fn((Seq<char>, Seq<char>)) -> Seq<Item> {
    |p: (Seq<char>, Seq<char>)| script_items(p)
}

/// What takes a script under its name.
pub open spec fn script_taker() -> spec_fn(Seq<Item>) -> Option<
    ((Seq<char>, Seq<char>), Seq<Item>),
> {
    |list: Seq<Item>| take_script(list)
}

/// The tokens of a list of rules.
pub open spec fn rules_items(list: Seq<NetworkRule>) -> Seq<Item> {
    list_items(list, rule_writer())
}

/// A list of rules in front of a list.
pub open spec fn take_rules(list: Seq<Item>) -> Option<(Seq<NetworkRule>, Seq<Item>)> {
    take_list(list, rule_taker())
}

/// The tokens of a list of cosmetic rules.
pub open spec fn cosmetics_items(list: Seq<CosmeticRule>) -> Seq<Item> {
    list_items(list, cosmetic_writer())
}

/// A list of cosmetic rules in front of a list.
pub open spec fn take_cosmetics(list: Seq<Item>) -> Option<(Seq<CosmeticRule>, Seq<Item>)> {
    take_list(list, cosmetic_taker())
}

/// The tokens of a map from names to resources.
pub open spec fn resources_items(list: Seq<(Seq<char>, RedirectModel)>) -> Seq<Item> {
    seq![Item::Pairs(list.len())] + many_items(list, resource_writer())
}

/// A map from names to resources in front of a list.
pub open spec fn take_resources(list: Seq<Item>) -> Option<
    (Seq<(Seq<char>, RedirectModel)>, Seq<Item>),
> {
    match take_pairs(list) {
        Some((n, next)) => take_many(next, n, resource_taker()),
        None => None,
    }
}

/// The tokens of a map from names to scripts.
pub open spec fn scripts_items(list: Seq<(Seq<char>, Seq<char>)>) -> Seq<Item> {
    seq![Item::Pairs(list.len())] + many_items(list, script_writer())
}

/// A map from names to scripts in front of a list.
pub open spec fn take_scripts(list: Seq<Item>) -> Option<
    (Seq<(Seq<char>, Seq<char>)>, Seq<Item>),
> {
    match take_pairs(list) {
        Some((n, next)) => take_many(next, n, script_taker()),
        None => None,
    }
}

/// A list of rules can be read back from its tokens.
pub proof fn lemma_rules(list: Seq<NetworkRule>, after: Seq<Item>)
    ensures
        take_rules(rules_items(list) + after) == Some((list, after)),
{
    let g = rule_writer();
    let f = rule_taker();
    assert forall|x: NetworkRule, r: Seq<Item>| #[trigger] f(g(x) + r) == Some((x, r)) by {
        lemma_rule(x, r);
    }
    lemma_list(list, g, f, after);
}

/// A list of cosmetic rules can be read back from its tokens.
pub proof fn lemma_cosmetics(list: Seq<CosmeticRule>, after: Seq<Item>)
    ensures
        take_cosmetics(cosmetics_items(list) + after) == Some((list, after)),
{
    let g = cosmetic_writer();
    let f = cosmetic_taker();
    assert forall|x: CosmeticRule, r: Seq<Item>| #[trigger] f(g(x) + r) == Some((x, r)) by {
        lemma_cosmetic(x, r);
    }
    lemma_list(list, g, f, after);
}

/// A map of resources can be read back from its tokens.
pub proof fn lemma_resources(list: Seq<(Seq<char>, RedirectModel)>, after: Seq<Item>)
    ensures
        take_resources(resources_items(list) + after) == Some((list, after)),
{
    let g = resource_writer();
    let f = resource_taker();
    assert forall|x: (Seq<char>, RedirectModel), r: Seq<Item>| #[trigger]
        f(g(x) + r) == Some((x, r)) by {
        assert((g(x) + r).skip(4) =~= r);
    }
    let all = resources_items(list) + after;
    lemma_many(list, g, f, after);
    assert(all[0] == Item::Pairs(list.len()));
    assert(all.skip(1) =~= many_items(list, g) + after);
}

/// A map of scripts can be read back from its tokens.
pub proof fn lemma_scripts(list: Seq<(Seq<char>, Seq<char>)>, after: Seq<Item>)
    ensures
        take_scripts(scripts_items(list) + after) == Some((list, after)),
{
    let g = script_writer();
    let f = script_taker();
    assert forall|x: (Seq<char>, Seq<char>), r: Seq<Item>| #[trigger] f(g(x) + r) == Some(
        (x, r),
    ) by {
        assert((g(x) + r).skip(2) =~= r);
    }
    let all = scripts_items(list) + after;
    lemma_many(list, g, f, after);
    assert(all[0] == Item::Pairs(list.len()));
    assert(all.skip(1) =~= many_items(list, g) + after);
}

} // verus!

//! MessagePack, read and written as a row of tokens: an array or a map is the
//! token that opens it, followed by those of what it holds.

use vstd::prelude::*;
use vstd::slice::{slice_subrange, slice_to_vec};
use vstd::utf8::{
    decode_utf8, encode_utf8, encode_utf8_decode_utf8, encode_utf8_valid_utf8, valid_utf8,
};

use crate::outside::text_of_utf8;

verus! {

/// A token.
#[derive(Debug, PartialEq, Eq)]
pub enum Token {
    Nil,
    Bool(bool),
    UInt(u64),
    Text(String),
    /// Opens an array of so many values.
    Array(usize),
    /// Opens a map of so many pairs.
    Pairs(usize),
}

/// A token.
pub enum Item {
    Nil,
    Bool(bool),
    UInt(u64),
    Text(Seq<char>),
    Array(nat),
    Pairs(nat),
}

impl View for Token {
    type V = Item;

    open spec fn view(&self) -> Item {
        match *self {
            Token::Nil => Item::Nil,
            Token::Bool(b) => Item::Bool(b),
            Token::UInt(x) => Item::UInt(x),
            Token::Text(s) => Item::Text(s@),
            Token::Array(n) => Item::Array(n as nat),
            Token::Pairs(n) => Item::Pairs(n as nat),
        }
    }
}

/// The tokens of a list.
pub open spec fn items(tokens: Seq<Token>) -> Seq<Item> {
    tokens.map_values(|t: Token| t@)
}

/// How many numbers `w` bytes can hold.
pub open spec fn numbers(w: nat) -> int
    decreases w,
{
    if w == 0 {
        1
    } else {
        256 * numbers((w - 1) as nat)
    }
}

/// The number that bytes write, the highest digit first.
pub open spec fn number_of(bytes: Seq<u8>) -> int
    decreases bytes.len(),
{
    if bytes.len() == 0 {
        0
    } else {
        256 * number_of(bytes.drop_last()) + bytes.last()
    }
}

/// The `w` bytes that write a number.
pub open spec fn digits(x: int, w: nat) -> Seq<u8>
    decreases w,
{
    if w == 0 {
        Seq::empty()
    } else {
        digits(x / 256, (w - 1) as nat).push((x % 256) as u8)
    }
}

/// What a first byte announces.
#[derive(Clone, Copy, Debug, PartialEq, Eq, Structural)]
pub enum Shape {
    Nil,
    False,
    True,
    UInt,
    Text,
    Array,
    Pairs,
    /// Nothing that is read here.
    Other,
}

/// What a first byte announces.
pub open spec fn shape_of(code: u8) -> Shape {
    if code <= 0x7f {
        Shape::UInt
    } else if code <= 0x8f {
        Shape::Pairs
    } else if code <= 0x9f {
        Shape::Array
    } else if code <= 0xbf {
        Shape::Text
    } else if code == 0xc0 {
        Shape::Nil
    } else if code == 0xc2 {
        Shape::False
    } else if code == 0xc3 {
        Shape::True
    } else if 0xcc <= code <= 0xcf {
        Shape::UInt
    } else if 0xd9 <= code <= 0xdb {
        Shape::Text
    } else if 0xdc <= code <= 0xdd {
        Shape::Array
    } else if 0xde <= code <= 0xdf {
        Shape::Pairs
    } else {
        Shape::Other
    }
}

/// How many bytes after a first byte write a number.
pub open spec fn width_of(code: u8) -> nat {
    if code == 0xcc || code == 0xd9 {
        1
    } else if code == 0xcd || code == 0xda || code == 0xdc || code == 0xde {
        2
    } else if code == 0xce || code == 0xdb || code == 0xdd || code == 0xdf {
        4
    } else if code == 0xcf {
        8
    } else {
        0
    }
}

/// The number that a first byte holds itself.
pub open spec fn short_number(code: u8) -> int {
    if code <= 0x7f {
        code as int
    } else if code <= 0x8f {
        code - 0x80
    } else if code <= 0x9f {
        code - 0x90
    } else if code <= 0xbf {
        code - 0xa0
    } else {
        0
    }
}

/// The first token that bytes write, and how many of them write it.
pub open spec fn first_item(bytes: Seq<u8>) -> Option<(Item, int)> {
    let w = width_of(bytes[0]) as int;
    let n = if w == 0 {
        short_number(bytes[0])
    } else {
        number_of(bytes.subrange(1, 1 + w))
    };
    if bytes.len() < 1 + w {
        None
    } else {
        match shape_of(bytes[0]) {
            Shape::Nil => Some((Item::Nil, 1)),
            Shape::False => Some((Item::Bool(false), 1)),
            Shape::True => Some((Item::Bool(true), 1)),
            Shape::UInt => Some((Item::UInt(n as u64), 1 + w)),
            Shape::Array => Some((Item::Array(n as nat), 1 + w)),
            Shape::Pairs => Some((Item::Pairs(n as nat), 1 + w)),
            Shape::Text => {
                let text = bytes.subrange(1 + w, 1 + w + n);
                if bytes.len() < 1 + w + n || !valid_utf8(text) {
                    None
                } else {
                    Some((Item::Text(decode_utf8(text)), 1 + w + n))
                }
            },
            Shape::Other => None,
        }
    }
}

/// The tokens that bytes write; none where some byte belongs to none.
pub open spec fn read_items(bytes: Seq<u8>) -> Option<Seq<Item>>
    decreases bytes.len(),
{
    if bytes.len() == 0 {
        Some(Seq::empty())
    } else {
        match first_item(bytes) {
            Some((item, n)) => if 0 < n <= bytes.len() {
                match read_items(bytes.skip(n)) {
                    Some(rest) => Some(seq![item] + rest),
                    None => None,
                }
            } else {
                None
            },
            None => None,
        }
    }
}

/// A first byte and the number that follows it.
pub open spec fn head(code: u8, n: int, w: nat) -> Seq<u8> {
    seq![code] + digits(n, w)
}

/// The bytes that write a token, in the shortest form.
pub open spec fn written(item: Item) -> Seq<u8> {
    match item {
        Item::Nil => seq![0xc0u8],
        Item::Bool(b) => if b {
            seq![0xc3u8]
        } else {
            seq![0xc2u8]
        },
        Item::UInt(x) => if x <= 0x7f {
            seq![x as u8]
        } else if x < 0x100 {
            head(0xcc, x as int, 1)
        } else if x < 0x1_0000 {
            head(0xcd, x as int, 2)
        } else if x < 0x1_0000_0000 {
            head(0xce, x as int, 4)
        } else {
            head(0xcf, x as int, 8)
        },
        Item::Text(s) => {
            let n = encode_utf8(s).len() as int;
            if n < 0x20 {
                seq![(0xa0 + n) as u8] + encode_utf8(s)
            } else if n < 0x100 {
                head(0xd9, n, 1) + encode_utf8(s)
            } else if n < 0x1_0000 {
                head(0xda, n, 2) + encode_utf8(s)
            } else {
                head(0xdb, n, 4) + encode_utf8(s)
            }
        },
        Item::Array(n) => if n < 0x10 {
            seq![(0x90 + n) as u8]
        } else if n < 0x1_0000 {
            head(0xdc, n as int, 2)
        } else {
            head(0xdd, n as int, 4)
        },
        Item::Pairs(n) => if n < 0x10 {
            seq![(0x80 + n) as u8]
        } else if n < 0x1_0000 {
            head(0xde, n as int, 2)
        } else {
            head(0xdf, n as int, 4)
        },
    }
}

/// The token can be written: what it announces is not too long.
pub open spec fn fits(item: Item) -> bool {
    match item {
        Item::Text(s) => encode_utf8(s).len() <= u32::MAX,
        Item::Array(n) => n <= u32::MAX,
        Item::Pairs(n) => n <= u32::MAX,
        _ => true,
    }
}

/// Each token of a list can be written.
pub open spec fn all_fit(list: Seq<Item>) -> bool {
    forall|i: int| 0 <= i < list.len() ==> fits(#[trigger] list[i])
}

/// The bytes that write a list of tokens.
pub open spec fn all_written(list: Seq<Item>) -> Seq<u8>
    decreases list.len(),
{
    if list.len() == 0 {
        Seq::empty()
    } else {
        written(list[0]) + all_written(list.drop_first())
    }
}

proof fn lemma_numbers()
    ensures
        numbers(1) == 0x100,
        numbers(2) == 0x1_0000,
        numbers(4) == 0x1_0000_0000,
        numbers(8) == 0x1_0000_0000_0000_0000,
{
    reveal_with_fuel(numbers, 9);
}

proof fn lemma_numbers_grow(v: nat, w: nat)
    requires
        v <= w,
    ensures
        0 < numbers(v) <= numbers(w),
    decreases w,
{
    if v < w {
        lemma_numbers_grow(v, (w - 1) as nat);
    } else if v > 0 {
        lemma_numbers_grow((v - 1) as nat, (v - 1) as nat);
    }
}

proof fn lemma_number_bound(bytes: Seq<u8>)
    ensures
        0 <= number_of(bytes) < numbers(bytes.len()),
    decreases bytes.len(),
{
    if bytes.len() > 0 {
        lemma_number_bound(bytes.drop_last());
    }
}

/// A number can be read back from the bytes that write it.
proof fn lemma_digits(x: int, w: nat)
    requires
        0 <= x < numbers(w),
    ensures
        digits(x, w).len() == w,
        number_of(digits(x, w)) == x,
    decreases w,
{
    if w > 0 {
        lemma_digits(x / 256, (w - 1) as nat);
        assert(digits(x, w).drop_last() =~= digits(x / 256, (w - 1) as nat));
    }
}

proof fn lemma_head(code: u8, n: int, w: nat, rest: Seq<u8>)
    requires
        0 <= n < numbers(w),
        w == width_of(code),
    ensures
        (head(code, n, w) + rest)[0] == code,
        head(code, n, w).len() == 1 + w,
        number_of((head(code, n, w) + rest).subrange(1, 1int + w)) == n,
{
    lemma_digits(n, w);
    assert((head(code, n, w) + rest).subrange(1, 1int + w) =~= digits(n, w));
}

proof fn lemma_text(front: Seq<u8>, s: Seq<char>, rest: Seq<u8>)
    ensures
        (front + encode_utf8(s) + rest).subrange(
            front.len() as int,
            front.len() as int + encode_utf8(s).len(),
        ) == encode_utf8(s),
        valid_utf8(encode_utf8(s)),
        decode_utf8(encode_utf8(s)) == s,
{
    encode_utf8_valid_utf8(s);
    encode_utf8_decode_utf8(s);
    assert((front + encode_utf8(s) + rest).subrange(
        front.len() as int,
        front.len() as int + encode_utf8(s).len(),
    ) =~= encode_utf8(s));
}

/// A token can be read back from the bytes that write it, whatever follows.
pub proof fn lemma_written(item: Item, rest: Seq<u8>)
    requires
        fits(item),
    ensures
        first_item(written(item) + rest) == Some((item, written(item).len() as int)),
        written(item).len() > 0,
{
    lemma_numbers();
    let all = written(item) + rest;
    match item {
        Item::UInt(x) => {
            if x <= 0x7f {
            } else if x < 0x100 {
                lemma_head(0xcc, x as int, 1, rest);
            } else if x < 0x1_0000 {
                lemma_head(0xcd, x as int, 2, rest);
            } else if x < 0x1_0000_0000 {
                lemma_head(0xce, x as int, 4, rest);
            } else {
                lemma_head(0xcf, x as int, 8, rest);
            }
        },
        Item::Text(s) => {
            let n = encode_utf8(s).len() as int;
            let tail = encode_utf8(s) + rest;
            let front = if n < 0x20 {
                seq![(0xa0 + n) as u8]
            } else if n < 0x100 {
                lemma_head(0xd9, n, 1, tail);
                head(0xd9, n, 1)
            } else if n < 0x1_0000 {
                lemma_head(0xda, n, 2, tail);
                head(0xda, n, 2)
            } else {
                lemma_head(0xdb, n, 4, tail);
                head(0xdb, n, 4)
            };
            assert(written(item) == front + encode_utf8(s));
            assert(all =~= front + tail);
            lemma_text(front, s, rest);
        },
        Item::Array(n) => {
            if n < 0x10 {
            } else if n < 0x1_0000 {
                lemma_head(0xdc, n as int, 2, rest);
            } else {
                lemma_head(0xdd, n as int, 4, rest);
            }
        },
        Item::Pairs(n) => {
            if n < 0x10 {
            } else if n < 0x1_0000 {
                lemma_head(0xde, n as int, 2, rest);
            } else {
                lemma_head(0xdf, n as int, 4, rest);
            }
        },
        _ => {},
    }
}

/// Tokens can be read back from the bytes that write them.
pub proof fn lemma_all_written(list: Seq<Item>)
    requires
        all_fit(list),
    ensures
        read_items(all_written(list)) == Some(list),
    decreases list.len(),
{
    if list.len() > 0 {
        let rest = list.drop_first();
        assert(all_fit(rest)) by {
            assert forall|i: int| 0 <= i < rest.len() implies fits(#[trigger] rest[i]) by {
                assert(rest[i] == list[i + 1]);
            }
        }
        lemma_all_written(rest);
        lemma_written(list[0], all_written(rest));
        assert(all_written(list).skip(written(list[0]).len() as int) =~= all_written(rest));
        assert(seq![list[0]] + rest =~= list);
    } else {
        assert(list =~= Seq::empty());
    }
}

proof fn lemma_all_written_push(list: Seq<Item>, item: Item)
    ensures
        all_written(list.push(item)) == all_written(list) + written(item),
    decreases list.len(),
{
    if list.len() > 0 {
        lemma_all_written_push(list.drop_first(), item);
        assert(list.push(item).drop_first() =~= list.drop_first().push(item));
        assert(all_written(list.push(item)) =~= all_written(list) + written(item));
    } else {
        assert(list.push(item).drop_first() =~= list);
        assert(list.push(item)[0] == item);
        assert(all_written(list) =~= Seq::empty());
        assert(all_written(list.push(item)) =~= written(item));
        assert(all_written(list) + written(item) =~= written(item));
    }
}

/// Appends the bytes that write a number.
fn push_digits(out: &mut Vec<u8>, x: u64, w: u8)
    ensures
        final(out)@ == old(out)@ + digits(x as int, w as nat),
    decreases w,
{
    if w > 0 {
        push_digits(out, x / 256, w - 1);
        out.push((x % 256) as u8);
    }
}

fn push_head(out: &mut Vec<u8>, code: u8, n: u64, w: u8)
    ensures
        final(out)@ == old(out)@ + head(code, n as int, w as nat),
{
    out.push(code);
    push_digits(out, n, w);
}

/// Appends bytes.
pub fn push_bytes(out: &mut Vec<u8>, bytes: &[u8])
    ensures
        final(out)@ == old(out)@ + bytes@,
{
    let mut i: usize = 0;
    while i < bytes.len()
        invariant
            i <= bytes@.len(),
            out@ == old(out)@ + bytes@.take(i as int),
        decreases bytes@.len() - i,
    {
        out.push(bytes[i]);
        i += 1;
    }
    assert(bytes@.take(i as int) =~= bytes@);
}

fn push_uint(out: &mut Vec<u8>, x: u64)
    ensures
        final(out)@ == old(out)@ + written(Item::UInt(x)),
{
    if x <= 0x7f {
        out.push(x as u8);
    } else if x < 0x100 {
        push_head(out, 0xcc, x, 1);
    } else if x < 0x1_0000 {
        push_head(out, 0xcd, x, 2);
    } else if x < 0x1_0000_0000 {
        push_head(out, 0xce, x, 4);
    } else {
        push_head(out, 0xcf, x, 8);
    }
}

fn push_text(out: &mut Vec<u8>, s: &String) -> (ok: bool)
    ensures
        ok == fits(Item::Text(s@)),
        final(out)@ == if ok {
            old(out)@ + written(Item::Text(s@))
        } else {
            old(out)@
        },
{
    let bytes = s.as_str().as_bytes();
    let n: usize = bytes.len();
    if n > 0xffff_ffff {
        return false;
    }
    if n < 0x20 {
        out.push(0xa0u8 + n as u8);
    } else if n < 0x100 {
        push_head(out, 0xd9, n as u64, 1);
    } else if n < 0x1_0000 {
        push_head(out, 0xda, n as u64, 2);
    } else {
        push_head(out, 0xdb, n as u64, 4);
    }
    push_bytes(out, bytes);
    assert(out@ =~= old(out)@ + written(Item::Text(s@)));
    true
}

fn push_array(out: &mut Vec<u8>, n: usize) -> (ok: bool)
    ensures
        ok == fits(Item::Array(n as nat)),
        final(out)@ == if ok {
            old(out)@ + written(Item::Array(n as nat))
        } else {
            old(out)@
        },
{
    if n > 0xffff_ffff {
        return false;
    }
    if n < 0x10 {
        out.push(0x90u8 + n as u8);
    } else if n < 0x1_0000 {
        push_head(out, 0xdc, n as u64, 2);
    } else {
        push_head(out, 0xdd, n as u64, 4);
    }
    true
}

fn push_pairs(out: &mut Vec<u8>, n: usize) -> (ok: bool)
    ensures
        ok == fits(Item::Pairs(n as nat)),
        final(out)@ == if ok {
            old(out)@ + written(Item::Pairs(n as nat))
        } else {
            old(out)@
        },
{
    if n > 0xffff_ffff {
        return false;
    }
    if n < 0x10 {
        out.push(0x80u8 + n as u8);
    } else if n < 0x1_0000 {
        push_head(out, 0xde, n as u64, 2);
    } else {
        push_head(out, 0xdf, n as u64, 4);
    }
    true
}

fn push_token(out: &mut Vec<u8>, token: &Token) -> (ok: bool)
    ensures
        ok == fits(token@),
        final(out)@ == if ok {
            old(out)@ + written(token@)
        } else {
            old(out)@
        },
{
    match token {
        Token::Nil => {
            out.push(0xc0);
            true
        },
        Token::Bool(b) => {
            out.push(
                if *b {
                    0xc3
                } else {
                    0xc2
                },
            );
            true
        },
        Token::UInt(x) => {
            push_uint(out, *x);
            true
        },
        Token::Text(s) => push_text(out, s),
        Token::Array(n) => push_array(out, *n),
        Token::Pairs(n) => push_pairs(out, *n),
    }
}

/// The bytes that write a list of tokens; none where one cannot be written.
pub fn write_tokens(tokens: &Vec<Token>) -> (r: Option<Vec<u8>>)
    ensures
        r is Some <==> all_fit(items(tokens@)),
        r matches Some(bytes) ==> bytes@ == all_written(items(tokens@)),
{
    let ghost all = items(tokens@);
    let mut out: Vec<u8> = Vec::new();
    let mut i: usize = 0;
    while i < tokens.len()
        invariant
            i <= tokens@.len(),
            all == items(tokens@),
            all_fit(all.take(i as int)),
            out@ == all_written(all.take(i as int)),
        decreases tokens@.len() - i,
    {
        proof {
            assert(all[i as int] == tokens@[i as int]@);
            assert(all.take(i + 1) =~= all.take(i as int).push(all[i as int]));
            lemma_all_written_push(all.take(i as int), all[i as int]);
        }
        if !push_token(&mut out, &tokens[i]) {
            return None;
        }
        i += 1;
    }
    assert(all.take(i as int) =~= all);
    Some(out)
}

fn find_shape(code: u8) -> (r: Shape)
    ensures
        r == shape_of(code),
{
    if code <= 0x7f {
        Shape::UInt
    } else if code <= 0x8f {
        Shape::Pairs
    } else if code <= 0x9f {
        Shape::Array
    } else if code <= 0xbf {
        Shape::Text
    } else if code == 0xc0 {
        Shape::Nil
    } else if code == 0xc2 {
        Shape::False
    } else if code == 0xc3 {
        Shape::True
    } else if 0xcc <= code && code <= 0xcf {
        Shape::UInt
    } else if 0xd9 <= code && code <= 0xdb {
        Shape::Text
    } else if 0xdc <= code && code <= 0xdd {
        Shape::Array
    } else if 0xde <= code && code <= 0xdf {
        Shape::Pairs
    } else {
        Shape::Other
    }
}

fn find_width(code: u8) -> (r: usize)
    ensures
        r == width_of(code),
{
    if code == 0xcc || code == 0xd9 {
        1
    } else if code == 0xcd || code == 0xda || code == 0xdc || code == 0xde {
        2
    } else if code == 0xce || code == 0xdb || code == 0xdd || code == 0xdf {
        4
    } else if code == 0xcf {
        8
    } else {
        0
    }
}

fn find_short_number(code: u8) -> (r: u64)
    ensures
        r == short_number(code),
{
    if code <= 0x7f {
        code as u64
    } else if code <= 0x8f {
        (code - 0x80) as u64
    } else if code <= 0x9f {
        (code - 0x90) as u64
    } else if code <= 0xbf {
        (code - 0xa0) as u64
    } else {
        0
    }
}

/// The number that bytes write.
fn read_number(bytes: &[u8]) -> (r: u64)
    requires
        bytes@.len() <= 8,
    ensures
        r == number_of(bytes@),
{
    let mut r: u64 = 0;
    let mut i: usize = 0;
    while i < bytes.len()
        invariant
            i <= bytes@.len() <= 8,
            r == number_of(bytes@.take(i as int)),
        decreases bytes@.len() - i,
    {
        proof {
            lemma_numbers();
            lemma_number_bound(bytes@.take(i + 1));
            lemma_numbers_grow((i + 1) as nat, 8);
            assert(bytes@.take(i + 1).drop_last() =~= bytes@.take(i as int));
        }
        r = 256 * r + bytes[i] as u64;
        i += 1;
    }
    assert(bytes@.take(i as int) =~= bytes@);
    r
}

/// The first token that bytes write, and how many of them write it.
fn read_token(bytes: &[u8]) -> (r: Option<(Token, usize)>)
    requires
        bytes@.len() > 0,
    ensures
        match r {
            Some((token, n)) => {
                &&& first_item(bytes@) == Some((token@, n as int))
                &&& 0 < n <= bytes@.len()
            },
            None => first_item(bytes@) is None,
        },
{
    let code = bytes[0];
    let len: usize = bytes.len();
    let w: usize = find_width(code);
    if len - 1 < w {
        return None;
    }
    let digits = slice_subrange(bytes, 1, 1 + w);
    let n: u64 = if w == 0 {
        find_short_number(code)
    } else {
        read_number(digits)
    };
    proof {
        lemma_numbers();
        lemma_number_bound(digits@);
    }
    match find_shape(code) {
        Shape::Nil => Some((Token::Nil, 1)),
        Shape::False => Some((Token::Bool(false), 1)),
        Shape::True => Some((Token::Bool(true), 1)),
        Shape::UInt => Some((Token::UInt(n), 1 + w)),
        Shape::Array => Some((Token::Array(n as usize), 1 + w)),
        Shape::Pairs => Some((Token::Pairs(n as usize), 1 + w)),
        Shape::Text => {
            let n: usize = n as usize;
            if len - 1 - w < n {
                return None;
            }
            match text_of_utf8(slice_to_vec(slice_subrange(bytes, 1 + w, 1 + w + n))) {
                Some(text) => Some((Token::Text(text), 1 + w + n)),
                None => None,
            }
        },
        Shape::Other => None,
    }
}

/// The tokens that bytes write; none where some byte belongs to none.
pub fn read_tokens(bytes: &[u8]) -> (r: Option<Vec<Token>>)
    ensures
        match r {
            Some(tokens) => read_items(bytes@) == Some(items(tokens@)),
            None => read_items(bytes@) is None,
        },
{
    let mut tokens: Vec<Token> = Vec::new();
    let mut i: usize = 0;
    let len: usize = bytes.len();
    proof {
        assert(bytes@.skip(0) =~= bytes@);
        if let Some(rest) = read_items(bytes@) {
            assert(items(tokens@) + rest =~= rest);
        }
    }
    while i < len
        invariant
            i <= len == bytes@.len(),
            read_items(bytes@) == match read_items(bytes@.skip(i as int)) {
                Some(rest) => Some(items(tokens@) + rest),
                None => None,
            },
        decreases len - i,
    {
        let rest = slice_subrange(bytes, i, len);
        assert(rest@ =~= bytes@.skip(i as int));
        match read_token(rest) {
            Some((token, n)) => {
                let ghost before = items(tokens@);
                let ghost item = token@;
                tokens.push(token);
                proof {
                    assert(items(tokens@) =~= before.push(item));
                    assert(rest@.skip(n as int) =~= bytes@.skip(i + n));
                    if let Some(tail) = read_items(bytes@.skip(i + n)) {
                        assert(before + (seq![item] + tail) =~= before.push(item) + tail);
                    }
                }
                i += n;
            },
            None => {
                return None;
            },
        }
    }
    proof {
        assert(bytes@.skip(i as int) =~= Seq::empty());
        assert(items(tokens@) + Seq::<Item>::empty() =~= items(tokens@));
    }
    Some(tokens)
}

} // verus!

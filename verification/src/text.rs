//! Character sequences: searching, splitting, trimming and conversion.
//!
//! Parsing and matching work on slices of characters; every function here is
//! specified by an operation on `Seq<char>`.

use vstd::prelude::*;

use crate::seqs::lemma_contains_pushed;
use vstd::slice::slice_subrange;

verus! {

broadcast use vstd::string::group_string_axioms;

/// `String::push` of the standard library appends one character.
pub assume_specification[ String::push ](s: &mut String, c: char)
    ensures
        final(s)@ == old(s)@.push(c),
;

/// The contents of a list of strings.
pub open spec fn strings(list: Seq<String>) -> Seq<Seq<char>> {
    list.map_values(|s: String| s@)
}

/// The contents of a list of string slices.
pub open spec fn strs(list: Seq<&str>) -> Seq<Seq<char>> {
    list.map_values(|s: &str| s@)
}

/// The contents of a list of character vectors.
pub open spec fn texts(list: Seq<Vec<char>>) -> Seq<Seq<char>> {
    list.map_values(|s: Vec<char>| s@)
}

/// The contents of an optional string.
pub open spec fn opt_text(s: Option<String>) -> Option<Seq<char>> {
    match s {
        Some(s) => Some(s@),
        None => None,
    }
}

/// The characters of a string.
pub fn chars_of(s: &str) -> (v: Vec<char>)
    ensures
        v@ == s@,
{
    let mut v: Vec<char> = Vec::new();
    for c in iter: s.chars()
        invariant
            iter.seq() == s@,
            v@ == iter.seq().take(iter.index() as int),
    {
        v.push(c);
    }
    v
}

/// The string made of the given characters.
pub fn string_of(chars: &[char]) -> (s: String)
    ensures
        s@ == chars@,
{
    let mut s: String = String::new();
    let mut i: usize = 0;
    while i < chars.len()
        invariant
            i <= chars@.len(),
            s@ == chars@.take(i as int),
        decreases chars@.len() - i,
    {
        s.push(chars[i]);
        i += 1;
    }
    s
}

/// Whether two character slices are equal.
pub fn same_text(a: &[char], b: &[char]) -> (r: bool)
    ensures
        r == (a@ == b@),
{
    if a.len() != b.len() {
        return false;
    }
    let mut i: usize = 0;
    while i < a.len()
        invariant
            i <= a@.len() == b@.len(),
            forall|j: int| 0 <= j < i ==> a@[j] == b@[j],
        decreases a@.len() - i,
    {
        if a[i] != b[i] {
            return false;
        }
        i += 1;
    }
    assert(a@ =~= b@);
    true
}

/// Whether a character slice reads as the given string.
pub fn reads(a: &[char], s: &str) -> (r: bool)
    ensures
        r == (a@ == s@),
{
    let b = chars_of(s);
    same_text(a, b.as_slice())
}

/// Whether `prefix` starts `s`.
pub fn starts_with(s: &[char], prefix: &str) -> (r: bool)
    ensures
        r == prefix@.is_prefix_of(s@),
{
    let p = chars_of(prefix);
    if p.len() > s.len() {
        return false;
    }
    same_text(slice_subrange(s, 0, p.len()), p.as_slice())
}

/// Whether `suffix` ends `s`.
pub fn ends_with(s: &[char], suffix: &str) -> (r: bool)
    ensures
        r == suffix@.is_suffix_of(s@),
{
    let p = chars_of(suffix);
    if p.len() > s.len() {
        return false;
    }
    same_text(slice_subrange(s, s.len() - p.len(), s.len()), p.as_slice())
}

/// The lower-case form of an ASCII letter; any other character itself.
pub open spec fn lower_char(c: char) -> char {
    if 'A' <= c <= 'Z' {
        (c as u32 + 32) as char
    } else {
        c
    }
}

/// A text with its ASCII letters in lower case.
pub open spec fn lower(s: Seq<char>) -> Seq<char> {
    s.map_values(|c: char| lower_char(c))
}

/// A text with its ASCII letters in lower case.
pub fn to_lower(s: &[char]) -> (v: Vec<char>)
    ensures
        v@ == lower(s@),
{
    let mut v: Vec<char> = Vec::new();
    let mut i: usize = 0;
    while i < s.len()
        invariant
            i <= s@.len(),
            v@ == lower(s@).take(i as int),
        decreases s@.len() - i,
    {
        let c = s[i];
        if 'A' <= c && c <= 'Z' {
            v.push(((c as u8) + 32) as char);
        } else {
            v.push(c);
        }
        i += 1;
    }
    v
}

/// The position of the first `c` in `s`.
pub fn find(s: &[char], c: char) -> (r: Option<usize>)
    ensures
        match r {
            Some(i) => {
                &&& s@.index_of_first(c) == Some(i as int)
                &&& i < s@.len()
                &&& s@[i as int] == c
            },
            None => s@.index_of_first(c) is None && !s@.contains(c),
        },
{
    let mut i: usize = 0;
    while i < s.len()
        invariant
            i <= s@.len(),
            forall|j: int| 0 <= j < i ==> s@[j] != c,
        decreases s@.len() - i,
    {
        if s[i] == c {
            proof {
                s@.index_of_first_ensures(c);
                assert(s@.contains(c));
            }
            return Some(i);
        }
        i += 1;
    }
    proof {
        s@.index_of_first_ensures(c);
    }
    None
}

/// The position of the last `c` in `s`.
pub fn rfind(s: &[char], c: char) -> (r: Option<usize>)
    ensures
        match r {
            Some(i) => {
                &&& s@.index_of_last(c) == Some(i as int)
                &&& i < s@.len()
                &&& s@[i as int] == c
            },
            None => s@.index_of_last(c) is None && !s@.contains(c),
        },
{
    let mut i: usize = s.len();
    while i > 0
        invariant
            i <= s@.len(),
            forall|j: int| i <= j < s@.len() ==> s@[j] != c,
        decreases i,
    {
        i -= 1;
        if s[i] == c {
            proof {
                s@.index_of_last_ensures(c);
                assert(s@.contains(c));
            }
            return Some(i);
        }
    }
    proof {
        s@.index_of_last_ensures(c);
    }
    None
}

/// `needle` stands in `s` at position `i`.
pub open spec fn occurs_at(s: Seq<char>, needle: Seq<char>, i: int) -> bool {
    0 <= i && i + needle.len() <= s.len() && s.subrange(i, i + needle.len()) == needle
}

/// The first position, from `from` on, at which `needle` stands in `s`.
pub open spec fn find_text_from(s: Seq<char>, needle: Seq<char>, from: int) -> Option<int>
    decreases s.len() + 1 - from,
{
    if from < 0 || from + needle.len() > s.len() {
        None
    } else if occurs_at(s, needle, from) {
        Some(from)
    } else {
        find_text_from(s, needle, from + 1)
    }
}

/// The first position at which `needle` stands in `s`.
pub open spec fn find_text(s: Seq<char>, needle: Seq<char>) -> Option<int> {
    find_text_from(s, needle, 0)
}

/// The search finds the first occurrence, and fails only where there is none.
pub proof fn lemma_find_text_from(s: Seq<char>, needle: Seq<char>, from: int)
    requires
        0 <= from,
    ensures
        match find_text_from(s, needle, from) {
            Some(i) => {
                &&& from <= i
                &&& occurs_at(s, needle, i)
                &&& forall|j: int| from <= j < i ==> !occurs_at(s, needle, j)
            },
            None => forall|j: int| from <= j ==> !occurs_at(s, needle, j),
        },
    decreases s.len() + 1 - from,
{
    if from + needle.len() > s.len() {
    } else if occurs_at(s, needle, from) {
    } else {
        lemma_find_text_from(s, needle, from + 1);
    }
}

/// The first position, from `from` on, at which `needle` stands in `s`.
pub fn search(s: &[char], needle: &[char], from: usize) -> (r: Option<usize>)
    ensures
        match r {
            Some(i) => {
                &&& find_text_from(s@, needle@, from as int) == Some(i as int)
                &&& from <= i
                &&& occurs_at(s@, needle@, i as int)
            },
            None => find_text_from(s@, needle@, from as int) is None,
        },
{
    let mut i: usize = from;
    while i < s.len() && needle.len() <= s.len() - i
        invariant
            from <= i,
            find_text_from(s@, needle@, from as int) == find_text_from(s@, needle@, i as int),
        decreases s@.len() - i,
    {
        if same_text(slice_subrange(s, i, i + needle.len()), needle) {
            return Some(i);
        }
        i += 1;
    }
    if i == s.len() && needle.len() == 0 {
        assert(s@.subrange(i as int, i as int) =~= needle@);
        return Some(i);
    }
    None
}

/// The pieces of `s` between the separators `c`; one more than there are separators.
pub open spec fn split(s: Seq<char>, c: char) -> Seq<Seq<char>>
    decreases s.len(),
{
    match s.index_of_first(c) {
        Some(i) if 0 <= i < s.len() => seq![s.take(i)] + split(s.skip(i + 1), c),
        _ => seq![s],
    }
}

/// The pieces of `s` between the separators `c`.
pub fn split_at(s: &[char], c: char) -> (r: Vec<Vec<char>>)
    ensures
        texts(r@) == split(s@, c),
{
    let mut r: Vec<Vec<char>> = Vec::new();
    let mut start: usize = 0;
    assert(s@.skip(0) =~= s@);
    assert(texts(r@) + split(s@, c) =~= split(s@, c));
    loop
        invariant
            start <= s@.len(),
            texts(r@) + split(s@.skip(start as int), c) == split(s@, c),
        decreases s@.len() - start,
    {
        let rest = slice_subrange(s, start, s.len());
        assert(rest@ =~= s@.skip(start as int));
        let ghost before = texts(r@);
        match find(rest, c) {
            Some(i) => {
                let piece = vstd::slice::slice_to_vec(slice_subrange(rest, 0, i));
                r.push(piece);
                proof {
                    assert(piece@ == rest@.take(i as int));
                    assert(rest@.skip(i + 1) =~= s@.skip(start + i + 1));
                    assert(texts(r@) =~= before.push(piece@));
                    assert(before + (seq![piece@] + split(rest@.skip(i + 1), c))
                        =~= before.push(piece@) + split(rest@.skip(i + 1), c));
                }
                start = start + i + 1;
            },
            None => {
                let piece = vstd::slice::slice_to_vec(rest);
                r.push(piece);
                assert(texts(r@) =~= before.push(piece@));
                assert(before + seq![piece@] =~= before.push(piece@));
                return r;
            },
        }
    }
}

/// The characters with the Unicode property `White_Space`.
pub open spec fn is_space(c: char) -> bool {
    ||| '\u{9}' <= c <= '\u{d}'
    ||| c == ' '
    ||| c == '\u{85}'
    ||| c == '\u{a0}'
    ||| c == '\u{1680}'
    ||| '\u{2000}' <= c <= '\u{200a}'
    ||| c == '\u{2028}'
    ||| c == '\u{2029}'
    ||| c == '\u{202f}'
    ||| c == '\u{205f}'
    ||| c == '\u{3000}'
}

/// Whether `c` has the Unicode property `White_Space`.
pub fn is_white(c: char) -> (r: bool)
    ensures
        r == is_space(c),
{
    ('\u{9}' <= c && c <= '\u{d}') || c == ' ' || c == '\u{85}' || c == '\u{a0}' || c == '\u{1680}'
        || ('\u{2000}' <= c && c <= '\u{200a}') || c == '\u{2028}' || c == '\u{2029}' || c
        == '\u{202f}' || c == '\u{205f}' || c == '\u{3000}'
}

/// `s` without white space at its start.
pub open spec fn trim_start(s: Seq<char>) -> Seq<char>
    decreases s.len(),
{
    if s.len() > 0 && is_space(s[0]) {
        trim_start(s.drop_first())
    } else {
        s
    }
}

/// `s` without white space at its end.
pub open spec fn trim_end(s: Seq<char>) -> Seq<char>
    decreases s.len(),
{
    if s.len() > 0 && is_space(s.last()) {
        trim_end(s.drop_last())
    } else {
        s
    }
}

/// `s` without white space at either end.
pub open spec fn trim(s: Seq<char>) -> Seq<char> {
    trim_end(trim_start(s))
}

/// What is trimmed is no longer than before.
pub proof fn lemma_trim_start(s: Seq<char>)
    ensures
        trim_start(s).len() <= s.len(),
        trim_start(s).len() > 0 ==> !is_space(trim_start(s)[0]),
    decreases s.len(),
{
    if s.len() > 0 && is_space(s[0]) {
        lemma_trim_start(s.drop_first());
    }
}

/// What is trimmed at its end starts as before and does not end in white space.
proof fn lemma_trim_end(s: Seq<char>)
    ensures
        trim_end(s).len() <= s.len(),
        trim_end(s).len() > 0 ==> trim_end(s)[0] == s[0] && !is_space(trim_end(s).last()),
    decreases s.len(),
{
    if s.len() > 0 && is_space(s.last()) {
        lemma_trim_end(s.drop_last());
    }
}

/// A text is trimmed if and only if it has no white space at either end; to trim it
/// twice is to trim it once.
pub proof fn lemma_trim(s: Seq<char>)
    ensures
        trim(s).len() > 0 ==> !is_space(trim(s)[0]) && !is_space(trim(s).last()),
        s.len() > 0 && !is_space(s[0]) && !is_space(s.last()) ==> trim(s) == s,
        trim(trim(s)) == trim(s),
{
    lemma_trim_start(s);
    lemma_trim_end(trim_start(s));
}

/// `s` without white space at either end.
pub fn trimmed(s: &[char]) -> (r: &[char])
    ensures
        r@ == trim(s@),
{
    let mut from: usize = 0;
    assert(s@.skip(0) =~= s@);
    while from < s.len() && is_white(s[from])
        invariant
            from <= s@.len(),
            trim_start(s@) == trim_start(s@.skip(from as int)),
        decreases s@.len() - from,
    {
        assert(s@.skip(from as int).drop_first() =~= s@.skip(from + 1));
        from += 1;
    }
    let mut to: usize = s.len();
    assert(s@.subrange(from as int, s@.len() as int) =~= s@.skip(from as int));
    while to > from && is_white(s[to - 1])
        invariant
            from <= to <= s@.len(),
            trim(s@) == trim_end(s@.subrange(from as int, to as int)),
        decreases to,
    {
        assert(s@.subrange(from as int, to as int).drop_last() =~= s@.subrange(
            from as int,
            to - 1,
        ));
        to -= 1;
    }
    slice_subrange(s, from, to)
}

/// The texts one after another, with `sep` between them.
pub open spec fn join(list: Seq<Seq<char>>, sep: Seq<char>) -> Seq<char>
    decreases list.len(),
{
    if list.len() == 0 {
        Seq::empty()
    } else if list.len() == 1 {
        list[0]
    } else {
        join(list.drop_last(), sep) + sep + list.last()
    }
}

/// The strings one after another, with `sep` between them.
pub fn join_strings(list: &Vec<String>, sep: &str) -> (r: String)
    ensures
        r@ == join(strings(list@), sep@),
{
    let mut r: String = String::new();
    let mut i: usize = 0;
    while i < list.len()
        invariant
            i <= list@.len(),
            r@ == join(strings(list@).take(i as int), sep@),
        decreases list@.len() - i,
    {
        assert(strings(list@).take(i + 1).drop_last() =~= strings(list@).take(i as int));
        if i > 0 {
            r.append(sep);
        }
        r.append(list[i].as_str());
        i += 1;
        proof {
            if i == 1 {
                assert(r@ =~= strings(list@)[0]);
            }
        }
    }
    assert(strings(list@).take(i as int) =~= strings(list@));
    r
}

/// `s` with `replacement` in place of every `needle`, taken from the left without overlap.
pub open spec fn replace(s: Seq<char>, needle: Seq<char>, replacement: Seq<char>) -> Seq<char>
    recommends
        needle.len() > 0,
    decreases s.len(),
{
    match find_text(s, needle) {
        Some(i) if needle.len() > 0 && 0 <= i && i + needle.len() <= s.len() => s.take(i)
            + replacement + replace(s.skip(i + needle.len()), needle, replacement),
        _ => s,
    }
}

/// `s` with `replacement` in place of every `needle`.
pub fn replace_all(s: &[char], needle: &[char], replacement: &[char]) -> (r: Vec<char>)
    requires
        needle@.len() > 0,
    ensures
        r@ == replace(s@, needle@, replacement@),
{
    let mut r: Vec<char> = Vec::new();
    let mut start: usize = 0;
    assert(s@.skip(0) =~= s@);
    assert(r@ + replace(s@, needle@, replacement@) =~= replace(s@, needle@, replacement@));
    loop
        invariant
            start <= s@.len(),
            needle@.len() > 0,
            r@ + replace(s@.skip(start as int), needle@, replacement@) == replace(
                s@,
                needle@,
                replacement@,
            ),
        decreases s@.len() - start,
    {
        let rest = slice_subrange(s, start, s.len());
        assert(rest@ =~= s@.skip(start as int));
        let ghost before = r@;
        match search(rest, needle, 0) {
            Some(i) => {
                extend(&mut r, slice_subrange(rest, 0, i));
                extend(&mut r, replacement);
                let next: usize = i + needle.len();
                proof {
                    assert(rest@.take(i as int) =~= rest@.subrange(0, i as int));
                    assert(rest@.skip(next as int) =~= s@.skip(start + next));
                    assert(before + (rest@.take(i as int) + replacement@ + replace(
                        rest@.skip(next as int),
                        needle@,
                        replacement@,
                    )) =~= before + rest@.take(i as int) + replacement@ + replace(
                        rest@.skip(next as int),
                        needle@,
                        replacement@,
                    ));
                }
                start = start + next;
            },
            None => {
                extend(&mut r, rest);
                return r;
            },
        }
    }
}

/// Appends the characters of `tail`.
pub fn extend(v: &mut Vec<char>, tail: &[char])
    ensures
        final(v)@ == old(v)@ + tail@,
{
    let mut i: usize = 0;
    while i < tail.len()
        invariant
            i <= tail@.len(),
            v@ == old(v)@ + tail@.take(i as int),
        decreases tail@.len() - i,
    {
        v.push(tail[i]);
        i += 1;
        assert(tail@.take(i as int) =~= tail@.take(i - 1).push(tail@[i - 1]));
    }
    assert(tail@.take(i as int) =~= tail@);
}

/// Whether `x` is one of the strings of `list`.
pub fn has_string(list: &Vec<String>, x: &str) -> (r: bool)
    ensures
        r == strings(list@).contains(x@),
{
    let wanted = x.to_owned();
    let mut i: usize = 0;
    while i < list.len()
        invariant
            wanted@ == x@,
            i <= list@.len(),
            forall|j: int| 0 <= j < i ==> list@[j]@ != x@,
        decreases list@.len() - i,
    {
        if list[i] == wanted {
            assert(strings(list@)[i as int] == x@);
            return true;
        }
        i += 1;
    }
    false
}

/// Whether `x` is one of the texts of `list`.
pub fn has_text(list: &Vec<Vec<char>>, x: &[char]) -> (r: bool)
    ensures
        r == texts(list@).contains(x@),
{
    let mut i: usize = 0;
    while i < list.len()
        invariant
            i <= list@.len(),
            forall|j: int| 0 <= j < i ==> list@[j]@ != x@,
        decreases list@.len() - i,
    {
        if same_text(list[i].as_slice(), x) {
            assert(texts(list@)[i as int] == x@);
            return true;
        }
        i += 1;
    }
    false
}

/// A list with one more text, unless it holds that text already.
pub open spec fn add_unique(list: Seq<Seq<char>>, x: Seq<char>) -> Seq<Seq<char>> {
    if list.contains(x) {
        list
    } else {
        list.push(x)
    }
}

/// A list without repetitions: of equal texts the first stays.
pub open spec fn unique(list: Seq<Seq<char>>) -> Seq<Seq<char>>
    decreases list.len(),
{
    if list.len() == 0 {
        Seq::empty()
    } else {
        add_unique(unique(list.drop_last()), list.last())
    }
}

/// Taking out repetitions keeps what the list holds.
pub proof fn lemma_unique(list: Seq<Seq<char>>)
    ensures
        unique(list).no_duplicates(),
        unique(list).to_set() == list.to_set(),
        forall|x: Seq<char>| #[trigger] unique(list).contains(x) <==> list.contains(x),
    decreases list.len(),
{
    if list.len() > 0 {
        let shorter = list.drop_last();
        lemma_unique(shorter);
        assert forall|x: Seq<char>| #[trigger] unique(list).contains(x) <==> list.contains(x) by {
            let last = list.last();
            assert(unique(shorter).contains(x) <==> shorter.contains(x));
            if list.contains(x) && x != last {
                let i = choose|i: int| 0 <= i < list.len() && list[i] == x;
                assert(shorter[i] == x);
            }
            if shorter.contains(x) {
                let i = choose|i: int| 0 <= i < shorter.len() && shorter[i] == x;
                assert(list[i] == x);
            }
            assert(list[list.len() - 1] == last);
            lemma_contains_pushed(unique(shorter), last, x);
        }
    }
    assert(unique(list).to_set() =~= list.to_set());
}

/// Appends a string, unless the list holds it already.
pub fn push_unique(list: &mut Vec<String>, x: String)
    ensures
        strings(final(list)@) == add_unique(strings(old(list)@), x@),
{
    if !has_string(list, x.as_str()) {
        list.push(x);
        assert(strings(list@) =~= strings(old(list)@).push(x@));
    }
}

} // verus!

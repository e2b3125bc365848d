//! What holds of the handling of texts.

use vstd::prelude::*;

use crate::text::{
    find_text, is_space, join, lemma_find_text_from, lemma_unique, lower, lower_char, occurs_at,
    replace, split, trim, trim_start, unique,
};

verus! {

/// ASCII capitals become the letters 32 places on; nothing else changes. To do so
/// twice is to do so once, and pieces can be treated one by one.
pub proof fn lower_case(a: Seq<char>, b: Seq<char>, i: int)
    requires
        0 <= i < a.len(),
    ensures
        lower(a).len() == a.len(),
        0x41 <= a[i] as u32 <= 0x5a ==> lower(a)[i] as u32 == a[i] as u32 + 32,
        !(0x41 <= a[i] as u32 <= 0x5a) ==> lower(a)[i] == a[i],
        lower(lower(a)) == lower(a),
        lower(a + b) == lower(a) + lower(b),
{
    assert(lower(lower(a)) =~= lower(a)) by {
        assert forall|k: int| 0 <= k < a.len() implies lower(lower(a))[k] == lower(a)[k] by {
            assert(lower(a)[k] == lower_char(a[k]));
        }
    }
    assert(lower(a + b) =~= lower(a) + lower(b));
}

/// White space around a text is trimmed, all of it and nothing else.
pub proof fn white_space_is_trimmed(before: Seq<char>, s: Seq<char>, after: Seq<char>)
    requires
        forall|i: int| 0 <= i < before.len() ==> is_space(#[trigger] before[i]),
        forall|i: int| 0 <= i < after.len() ==> is_space(#[trigger] after[i]),
        s.len() > 0 ==> !is_space(s[0]) && !is_space(s.last()),
    ensures
        trim(before + s + after) == s,
    decreases before.len() + after.len(),
{
    let all = before + s + after;
    if before.len() > 0 {
        let rest = before.drop_first();
        assert(all.drop_first() =~= rest + s + after);
        assert(all[0] == before[0]);
        assert(trim_start(all) == trim_start(all.drop_first()));
        assert forall|i: int| 0 <= i < rest.len() implies is_space(#[trigger] rest[i]) by {
            assert(rest[i] == before[i + 1]);
        }
        white_space_is_trimmed(rest, s, after);
    } else if s.len() == 0 {
        assert(all =~= after);
        if after.len() > 0 {
            let rest = after.drop_first();
            assert(all.drop_first() =~= before + s + rest);
            assert forall|i: int| 0 <= i < rest.len() implies is_space(#[trigger] rest[i]) by {
                assert(rest[i] == after[i + 1]);
            }
            assert(trim_start(all) == trim_start(all.drop_first()));
            white_space_is_trimmed(before, s, rest);
        } else {
            assert(all =~= s);
        }
    } else {
        assert(all[0] == s[0]);
        assert(trim_start(all) == all);
        if after.len() > 0 {
            let rest = after.drop_last();
            assert(all.drop_last() =~= before + s + rest);
            assert(all.last() == after.last());
            assert forall|i: int| 0 <= i < rest.len() implies is_space(#[trigger] rest[i]) by {
                assert(rest[i] == after[i]);
            }
            white_space_is_trimmed(before, s, rest);
            assert((before + s + rest)[0] == s[0]);
            assert(trim_start(before + s + rest) == before + s + rest);
        } else {
            assert(all =~= s);
        }
    }
}

/// The characters that count as white space.
pub proof fn white_space(c: char)
    ensures
        is_space(c) <==> {
            let x = c as u32;
            ||| x == 0x9 || x == 0xa || x == 0xb || x == 0xc || x == 0xd || x == 0x20
            ||| x == 0x85 || x == 0xa0 || x == 0x1680
            ||| 0x2000 <= x <= 0x200a
            ||| x == 0x2028 || x == 0x2029 || x == 0x202f || x == 0x205f || x == 0x3000
        },
{
}

/// A joined list of texts starts with the first.
pub proof fn joined_from_the_front(list: Seq<Seq<char>>, sep: Seq<char>)
    requires
        list.len() > 1,
    ensures
        join(list, sep) == list[0] + sep + join(list.drop_first(), sep),
        join(list, sep) == join(list.drop_last(), sep) + sep + list.last(),
    decreases list.len(),
{
    let rest = list.drop_first();
    if list.len() == 2 {
        assert(list.drop_last().len() == 1 && rest.len() == 1);
        assert(rest[0] == list[1]);
    } else {
        joined_from_the_front(list.drop_last(), sep);
        assert(list.drop_last().drop_first() =~= rest.drop_last());
        assert(rest.last() == list.last());
        assert(join(list, sep) =~= list[0] + sep + join(rest, sep));
    }
}

/// What was joined by a character is split at it into the same texts, where none of
/// them holds it.
pub proof fn joined_texts_are_split(list: Seq<Seq<char>>, c: char)
    requires
        list.len() > 0,
        forall|i: int| 0 <= i < list.len() ==> !(#[trigger] list[i]).contains(c),
    ensures
        split(join(list, seq![c]), c) == list,
    decreases list.len(),
{
    let all = join(list, seq![c]);
    all.index_of_first_ensures(c);
    if list.len() == 1 {
        assert(!list[0].contains(c));
        assert(split(all, c) =~= list);
    } else {
        let rest = list.drop_first();
        joined_from_the_front(list, seq![c]);
        let n = list[0].len() as int;
        assert(all[n] == c);
        assert(all.contains(c));
        let i = all.index_of_first(c)->0;
        if i < n {
            assert(list[0][i] == c);
            assert(list[0].contains(c));
        }
        assert(i == n);
        assert(all.take(n) =~= list[0]);
        assert(all.skip(n + 1) =~= join(rest, seq![c]));
        assert forall|k: int| 0 <= k < rest.len() implies !(#[trigger] rest[k]).contains(c) by {
            assert(rest[k] == list[k + 1]);
        }
        joined_texts_are_split(rest, c);
        assert(split(all, c) =~= list);
    }
}

/// The pieces of a split text hold no separator, and joined by it give the text back.
pub proof fn split_texts_are_joined(s: Seq<char>, c: char)
    ensures
        split(s, c).len() > 0,
        forall|i: int| 0 <= i < split(s, c).len() ==> !(#[trigger] split(s, c)[i]).contains(c),
        join(split(s, c), seq![c]) == s,
    decreases s.len(),
{
    let pieces = split(s, c);
    s.index_of_first_ensures(c);
    match s.index_of_first(c) {
        Some(i) => {
            let rest = s.skip(i + 1);
            split_texts_are_joined(rest, c);
            assert(pieces.drop_first() =~= split(rest, c));
            assert forall|k: int| 0 <= k < pieces.len() implies !(#[trigger] pieces[k]).contains(
                c,
            ) by {
                if k == 0 {
                    assert(pieces[0] == s.take(i));
                } else {
                    assert(pieces[k] == split(rest, c)[k - 1]);
                }
            }
            joined_from_the_front(pieces, seq![c]);
            assert(s =~= s.take(i) + seq![c] + rest);
        },
        None => {},
    }
}

/// A text is replaced where it stands first, and then in what follows.
pub proof fn first_occurrence_is_replaced(
    before: Seq<char>,
    needle: Seq<char>,
    after: Seq<char>,
    replacement: Seq<char>,
)
    requires
        needle.len() > 0,
        forall|i: int|
            0 <= i < before.len() ==> !needle.is_prefix_of(
                #[trigger] (before + needle + after).skip(i),
            ),
    ensures
        replace(before + needle + after, needle, replacement) == before + replacement + replace(
            after,
            needle,
            replacement,
        ),
{
    let s = before + needle + after;
    let n = before.len() as int;
    lemma_find_text_from(s, needle, 0);
    assert(s.subrange(n, n + needle.len()) =~= needle);
    assert(occurs_at(s, needle, n));
    let i = find_text(s, needle)->0;
    if i < n {
        assert(s.skip(i).subrange(0, needle.len() as int) =~= s.subrange(i, i + needle.len()));
        assert(needle.is_prefix_of(s.skip(i)));
    }
    if i > n {
        assert(!occurs_at(s, needle, n));
    }
    assert(s.take(n) =~= before);
    assert(s.skip(n + needle.len()) =~= after);
}

/// A text in which nothing stands to be replaced stays.
pub proof fn nothing_to_replace(s: Seq<char>, needle: Seq<char>, replacement: Seq<char>)
    requires
        forall|i: int| 0 <= i <= s.len() ==> !needle.is_prefix_of(#[trigger] s.skip(i)),
    ensures
        replace(s, needle, replacement) == s,
{
    lemma_find_text_from(s, needle, 0);
    if find_text(s, needle) is Some {
        let i = find_text(s, needle)->0;
        assert(s.skip(i).subrange(0, needle.len() as int) =~= s.subrange(i, i + needle.len()));
        assert(needle.is_prefix_of(s.skip(i)));
    }
}

/// Of equal texts in a list the first stays, and the order is kept.
pub proof fn repetitions_leave(list: Seq<Seq<char>>, x: Seq<char>)
    ensures
        unique(list).no_duplicates(),
        unique(list).contains(x) <==> list.contains(x),
        list.contains(x) ==> unique(list.push(x)) == unique(list),
        !list.contains(x) ==> unique(list.push(x)) == unique(list).push(x),
{
    lemma_unique(list);
    assert(list.push(x).drop_last() =~= list);
}

} // verus!

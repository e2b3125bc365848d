//! What holds of cosmetic rules: on which hosts a rule acts, and by which class or id its
//! selector is found.

use vstd::prelude::*;

use crate::filters::cosmetic::{
    any_covers, entity_of, entry_covers, listed_hosts, name_len, parse_action, parse_cosmetic,
    selector_key, CosmeticAction, CosmeticFilterError, CosmeticRule,
};
use crate::lists::{filter_type_of, parse_line, FilterFormat, FilterParseError, FilterType, Rule};
use crate::match_laws::{at_or_under, subdomains};
use crate::outside::root_domain;
use crate::seqs::lemma_contains_pushed;
use crate::text::{
    find_text, is_space, join, lemma_find_text_from, lemma_trim, lower, occurs_at, split, trim,
};
use crate::text_laws::{joined_texts_are_split, white_space_is_trimmed};
use crate::url_parser::ascii_form;

verus! {

/// An entry ends in `.*`.
pub open spec fn is_for_any_suffix(entry: Seq<char>) -> bool {
    entry.len() >= 2 && entry[entry.len() - 2] == '.' && entry[entry.len() - 1] == '*'
}

/// An entry of a host list names a host: the host is the entry or lies under it. For an
/// entry that ends in `.*` the host is taken without the public suffix, which is what
/// comes behind the first dot of its registered domain.
pub open spec fn names(entry: Seq<char>, host: Seq<char>) -> bool {
    if is_for_any_suffix(entry) {
        root_domain(host) matches Some(domain) && exists|n: int|
            0 <= n < domain.len() && #[trigger] domain[n] == '.' && !domain.take(n).contains('.')
                && domain.len() <= host.len() && at_or_under(
                host.take(host.len() - domain.len() + n),
                entry.take(entry.len() - 2),
            )
    } else {
        at_or_under(host, entry)
    }
}

proof fn lemma_names(entry: Seq<char>, host: Seq<char>)
    ensures
        entry_covers(entry, host) == names(entry, host),
{
    reveal_strlit(".*");
    assert(".*"@ =~= seq!['.', '*']);
    if entry.len() >= 2 {
        let tail = entry.subrange(entry.len() - 2, entry.len() as int);
        assert(tail[0] == entry[entry.len() - 2] && tail[1] == entry[entry.len() - 1]);
        if is_for_any_suffix(entry) {
            assert(tail =~= ".*"@);
        }
    }
    assert(".*"@.is_suffix_of(entry) == is_for_any_suffix(entry));
    if is_for_any_suffix(entry) {
        let short = entry.take(entry.len() - 2);
        match root_domain(host) {
            Some(domain) => {
                domain.index_of_first_ensures('.');
                match entity_of(host) {
                    Some(entity) => {
                        subdomains(Seq::empty(), entity, short);
                        let n = domain.index_of_first('.')->0;
                        assert(!domain.take(n).contains('.')) by {
                            if domain.take(n).contains('.') {
                                let k = choose|k: int|
                                    0 <= k < domain.take(n).len() && domain.take(n)[k] == '.';
                                assert(domain[k] == '.');
                            }
                        }
                        if at_or_under(entity, short) {
                            assert(domain[n] == '.');
                        }
                        assert forall|m: int|
                            0 <= m < domain.len() && #[trigger] domain[m] == '.'
                                && !domain.take(m).contains('.') implies m == n by {
                            if m > n {
                                assert(domain.take(m)[n] == '.');
                            }
                        }
                    },
                    None => {
                        assert forall|m: int|
                            0 <= m < domain.len() && #[trigger] domain[m] == '.' implies domain.len()
                            > host.len() by {
                            assert(domain.contains('.'));
                        }
                    },
                }
            },
            None => {},
        }
    } else {
        subdomains(Seq::empty(), host, entry);
    }
}

/// An entry of a host list that ends in `.*` names the hosts whose registered domain is
/// the entry with any public suffix in place of `*`, and those under them.
pub proof fn entries_for_any_suffix(
    entry: Seq<char>,
    before: Seq<char>,
    label: Seq<char>,
    suffix: Seq<char>,
)
    requires
        !label.contains('.'),
        root_domain(before + label + seq!['.'] + suffix) == Some(label + seq!['.'] + suffix),
    ensures
        entry_covers(entry + seq!['.', '*'], before + label + seq!['.'] + suffix) == at_or_under(
            before + label,
            entry,
        ),
{
    let host = before + label + seq!['.'] + suffix;
    let domain = label + seq!['.'] + suffix;
    let whole = entry + seq!['.', '*'];
    let n = label.len() as int;
    lemma_names(whole, host);
    assert(whole.take(whole.len() - 2) =~= entry);
    assert(host.take(host.len() - domain.len() + n) =~= before + label);
    assert(domain[n] == '.');
    assert(domain.take(n) =~= label);
    assert forall|m: int|
        0 <= m < domain.len() && #[trigger] domain[m] == '.' && !domain.take(m).contains(
            '.',
        ) implies m == n by {
        if m < n {
            assert(label[m] == '.');
        }
        if m > n {
            assert(domain.take(m)[n] == '.');
        }
    }
}

/// Some entry of a host list names a host, at whatever place it stands.
pub open spec fn some_names(entries: Seq<Seq<char>>, host: Seq<char>) -> bool {
    exists|i: int| 0 <= i < entries.len() && names(#[trigger] entries[i], host)
}

proof fn lemma_some_names(entries: Seq<Seq<char>>, host: Seq<char>)
    ensures
        any_covers(entries, host) == some_names(entries, host),
{
    if any_covers(entries, host) {
        let i = choose|i: int|
            0 <= i < entries.len() && entry_covers(#[trigger] entries[i], host);
        lemma_names(entries[i], host);
        assert(names(entries[i], host));
    }
    if some_names(entries, host) {
        let i = choose|i: int| 0 <= i < entries.len() && names(#[trigger] entries[i], host);
        lemma_names(entries[i], host);
        assert(entry_covers(entries[i], host));
    }
}

/// A rule acts on a host that one of its entries names, whichever it is, and on no other;
/// it takes its action back on a host that one of those with `~` names. For an exception
/// it is the other way round.
pub proof fn rules_act_on_their_hosts(rule: CosmeticRule, host: Seq<char>)
    ensures
        rule.acts_on(host) == some_names(
            if rule.unhide {
                rule.not_hosts
            } else {
                rule.hosts
            },
            host,
        ),
        rule.takes_back_on(host) == some_names(
            if rule.unhide {
                rule.hosts
            } else {
                rule.not_hosts
            },
            host,
        ),
{
    lemma_some_names(rule.hosts, host);
    lemma_some_names(rule.not_hosts, host);
}

/// A rule acts on every host of its list and on every host under one, at whatever place
/// of the list it stands.
pub proof fn every_entry_counts(rule: CosmeticRule, i: int, before: Seq<char>)
    requires
        !rule.unhide,
        0 <= i < rule.hosts.len(),
        !is_for_any_suffix(rule.hosts[i]),
    ensures
        rule.acts_on(rule.hosts[i]),
        rule.acts_on(before + seq!['.'] + rule.hosts[i]),
{
    let host = rule.hosts[i];
    let under = before + seq!['.'] + host;
    rules_act_on_their_hosts(rule, host);
    rules_act_on_their_hosts(rule, under);
    subdomains(before, host, host);
    subdomains(before, under, host);
    assert(names(rule.hosts[i], host));
    assert(names(rule.hosts[i], under));
}

/// A rule for other hosts.
pub open spec fn for_hosts(rule: CosmeticRule, hosts: Seq<Seq<char>>) -> CosmeticRule {
    CosmeticRule { hosts, ..rule }
}

/// A rule for the hosts of two lists acts where one for either list does; so the order of
/// the hosts does not count.
pub proof fn host_lists_add_up(
    rule: CosmeticRule,
    a: Seq<Seq<char>>,
    b: Seq<Seq<char>>,
    host: Seq<char>,
)
    ensures
        !rule.unhide ==> for_hosts(rule, a + b).acts_on(host) == (for_hosts(rule, a).acts_on(host)
            || for_hosts(rule, b).acts_on(host)),
        rule.unhide ==> for_hosts(rule, a + b).takes_back_on(host) == (for_hosts(
            rule,
            a,
        ).takes_back_on(host) || for_hosts(rule, b).takes_back_on(host)),
        for_hosts(rule, a + b).acts_on(host) == for_hosts(rule, b + a).acts_on(host),
        for_hosts(rule, a + b).takes_back_on(host) == for_hosts(rule, b + a).takes_back_on(host),
{
    rules_act_on_their_hosts(for_hosts(rule, a), host);
    rules_act_on_their_hosts(for_hosts(rule, b), host);
    rules_act_on_their_hosts(for_hosts(rule, a + b), host);
    rules_act_on_their_hosts(for_hosts(rule, b + a), host);
    lemma_added_names(a, b, host);
    lemma_added_names(b, a, host);
}

proof fn lemma_added_names(a: Seq<Seq<char>>, b: Seq<Seq<char>>, host: Seq<char>)
    ensures
        some_names(a + b, host) == (some_names(a, host) || some_names(b, host)),
{
    let ab = a + b;
    if some_names(ab, host) {
        let i = choose|i: int| 0 <= i < ab.len() && names(#[trigger] ab[i], host);
        if i < a.len() {
            assert(names(a[i], host));
        } else {
            assert(names(b[i - a.len()], host));
        }
    }
    if some_names(a, host) {
        let i = choose|i: int| 0 <= i < a.len() && names(#[trigger] a[i], host);
        assert(names(ab[i], host));
    }
    if some_names(b, host) {
        let i = choose|i: int| 0 <= i < b.len() && names(#[trigger] b[i], host);
        assert(names(ab[a.len() + i], host));
    }
}

/// A name of a class or an id: of ASCII letters, digits, `-`, `_`, and characters beyond
/// ASCII.
pub open spec fn is_name(s: Seq<char>) -> bool {
    s.len() > 0 && forall|i: int| 0 <= i < s.len() ==> is_in_name(#[trigger] s[i])
}

/// A character that stands in names.
pub open spec fn is_in_name(c: char) -> bool {
    let x = c as u32;
    ||| 0x61 <= x <= 0x7a || 0x41 <= x <= 0x5a || 0x30 <= x <= 0x39
    ||| x == 0x2d || x == 0x5f || x >= 0x80
}

proof fn lemma_name_char(c: char)
    ensures
        crate::filters::cosmetic::is_name_char(c) == is_in_name(c),
{
}

proof fn lemma_name_len(name: Seq<char>, rest: Seq<char>)
    requires
        forall|i: int| 0 <= i < name.len() ==> is_in_name(#[trigger] name[i]),
        rest.len() > 0 ==> !is_in_name(rest[0]),
    ensures
        name_len(name + rest) == name.len(),
    decreases name.len(),
{
    let all = name + rest;
    if name.len() == 0 {
        if rest.len() > 0 {
            assert(all[0] == rest[0]);
            lemma_name_char(rest[0]);
        }
    } else {
        let tail = name.drop_first();
        assert(all[0] == name[0]);
        lemma_name_char(name[0]);
        assert(all.drop_first() =~= tail + rest);
        assert forall|i: int| 0 <= i < tail.len() implies is_in_name(#[trigger] tail[i]) by {
            assert(tail[i] == name[i + 1]);
        }
        lemma_name_len(tail, rest);
    }
}

/// A selector that starts with `.` and a name is found by the class of that name, and one
/// that starts with `#` and a name by the id: by the whole name, and by it alone. What
/// follows the name does not count, unless it makes the selector a list or escapes
/// something.
pub proof fn selectors_are_found_by_name(name: Seq<char>, rest: Seq<char>, mark: char)
    requires
        is_name(name),
        mark == '.' || mark == '#',
        rest.len() > 0 ==> !is_in_name(rest[0]),
        !rest.contains(',') && !rest.contains('\\'),
    ensures
        selector_key(seq![mark] + name + rest, mark) == Some(name),
        mark == '.' ==> selector_key(seq![mark] + name + rest, '#') is None,
        mark == '#' ==> selector_key(seq![mark] + name + rest, '.') is None,
{
    let all = seq![mark] + name + rest;
    assert(all.skip(1) =~= name + rest);
    lemma_name_len(name, rest);
    assert forall|c: char| (c == ',' || c == '\\') implies !(#[trigger] all.contains(c)) by {
        if all.contains(c) {
            let i = choose|i: int| 0 <= i < all.len() && all[i] == c;
            if 1 <= i < 1 + name.len() {
                assert(is_in_name(name[i - 1]));
                lemma_name_char(c);
            } else if i > 0 {
                assert(rest[i - 1 - name.len()] == c);
            }
        }
    }
    assert(!all.contains(',') && !all.contains('\\'));
    assert(all.subrange(1, 1 + name.len() as int) =~= name);
}

/// A selector that starts with neither `.` nor `#`, a list of selectors, and one with an
/// escape are not found by a class or an id.
pub proof fn other_selectors_have_no_name(selector: Seq<char>)
    requires
        selector.len() == 0 || (selector[0] != '.' && selector[0] != '#') || selector.contains(',')
            || selector.contains('\\') || selector.len() == 1 || !is_in_name(selector[1]),
    ensures
        selector_key(selector, '.') is None,
        selector_key(selector, '#') is None,
{
    if selector.len() > 0 {
        let rest = selector.skip(1);
        if rest.len() > 0 && !is_in_name(selector[1]) {
            assert(rest[0] == selector[1]);
            lemma_name_char(rest[0]);
        }
    }
}

/// A character of a plain host name, or the `*` of an entry that ends in `.*`.
pub open spec fn is_plain_char(c: char) -> bool {
    let x = c as u32;
    ||| 0x61 <= x <= 0x7a || 0x41 <= x <= 0x5a || 0x30 <= x <= 0x39
    ||| x == 0x2d || x == 0x2e || x == 0x5f || x == 0x2a
}

/// The host that an entry of a host list speaks of.
pub open spec fn entry_name(e: Seq<char>) -> Seq<char> {
    if e[0] == '~' {
        e.skip(1)
    } else {
        e
    }
}

/// An entry of a host list: a host name, with `~` before it or without.
pub open spec fn is_host_entry(e: Seq<char>) -> bool {
    &&& e.len() > 0
    &&& entry_name(e).len() > 0
    &&& forall|i: int| 0 <= i < entry_name(e).len() ==> is_plain_char(#[trigger] entry_name(e)[i])
}

/// Some entry without `~`, or with `negated` one with it, names a host.
pub open spec fn some_entry_names(
    entries: Seq<Seq<char>>,
    negated: bool,
    host: Seq<char>,
) -> bool {
    exists|i: int|
        0 <= i < entries.len() && ((#[trigger] entries[i])[0] == '~') == negated && names(
            lower(entry_name(entries[i])),
            host,
        )
}

/// A line of a host list, `##` or for an exception `#@#`, and a text.
pub open spec fn cosmetic_line(
    entries: Seq<Seq<char>>,
    unhide: bool,
    body: Seq<char>,
) -> Seq<char> {
    join(entries, seq![',']) + (if unhide {
        seq!['#', '@', '#']
    } else {
        seq!['#', '#']
    }) + body
}

/// A text does not stand anywhere in another.
pub open spec fn is_without(s: Seq<char>, needle: Seq<char>) -> bool {
    forall|i: int| 0 <= i < s.len() ==> !needle.is_prefix_of(#[trigger] s.skip(i))
}

/// The text of a selector, or what stands for a style or a script.
pub open spec fn is_body(s: Seq<char>) -> bool {
    &&& s.len() > 0
    &&& !is_space(s[0]) && !is_space(s.last())
    &&& s[0] != '^'
    &&& is_without(s, seq!['$', '$'])
}

/// The text of a selector.
pub open spec fn is_selector(s: Seq<char>) -> bool {
    &&& is_body(s)
    &&& s[0] != '+'
    &&& is_without(s, seq![':', 's', 't', 'y', 'l', 'e', '('])
}

proof fn lemma_plain_char(c: char)
    requires
        is_plain_char(c),
    ensures
        !is_space(c),
        c <= '\u{7f}',
        c != '~' && c != '#' && c != ',' && c != '$' && c != '!' && c != '|' && c != '[' && c != '@',
{
}

proof fn lemma_host_entry(e: Seq<char>)
    requires
        is_host_entry(e),
    ensures
        trim(e) == e,
        ascii_form(entry_name(e)) == Some(lower(entry_name(e))),
        !e.contains(',') && !e.contains('#') && !e.contains('$'),
        !is_space(e[0]) && !is_space(e.last()),
        e[0] == '~' || is_plain_char(e[0]),
{
    let n = entry_name(e);
    assert(is_plain_char(n[0]));
    assert(is_plain_char(n[n.len() - 1]));
    lemma_plain_char(n[0]);
    lemma_plain_char(n[n.len() - 1]);
    assert(e.last() == n.last());
    lemma_trim(e);
    assert forall|i: int| 0 <= i < n.len() implies #[trigger] n[i] <= '\u{7f}' by {
        assert(is_plain_char(n[i]));
        lemma_plain_char(n[i]);
    }
    assert forall|c: char| (c == ',' || c == '#' || c == '$') implies !(#[trigger] e.contains(c)) by {
        if e.contains(c) {
            let i = choose|i: int| 0 <= i < e.len() && e[i] == c;
            if e[0] == '~' {
                if i > 0 {
                    assert(n[i - 1] == c);
                    assert(is_plain_char(n[i - 1]));
                    lemma_plain_char(c);
                }
            } else {
                assert(is_plain_char(n[i]));
                lemma_plain_char(c);
            }
        }
    }
    assert(!e.contains(',') && !e.contains('#') && !e.contains('$'));
}

/// What a host list of plain entries holds.
spec fn holds_entries(list: Seq<Seq<char>>, entries: Seq<Seq<char>>, negated: bool) -> bool {
    forall|x: Seq<char>| #[trigger]
        list.contains(x) <==> exists|i: int|
            0 <= i < entries.len() && ((#[trigger] entries[i])[0] == '~') == negated && lower(
                entry_name(entries[i]),
            ) == x
}

proof fn lemma_one_more_entry(
    list: Seq<Seq<char>>,
    front: Seq<Seq<char>>,
    last: Seq<char>,
    negated: bool,
)
    requires
        holds_entries(list, front, negated),
    ensures
        (last[0] == '~') == negated ==> holds_entries(
            list.push(lower(entry_name(last))),
            front.push(last),
            negated,
        ),
        (last[0] == '~') != negated ==> holds_entries(list, front.push(last), negated),
{
    let all = front.push(last);
    let more = if (last[0] == '~') == negated {
        list.push(lower(entry_name(last)))
    } else {
        list
    };
    assert forall|x: Seq<char>| #[trigger] more.contains(x) <==> exists|i: int|
        0 <= i < all.len() && ((#[trigger] all[i])[0] == '~') == negated && lower(
            entry_name(all[i]),
        ) == x by {
        lemma_contains_pushed(list, lower(entry_name(last)), x);
        if list.contains(x) {
            let i = choose|i: int|
                0 <= i < front.len() && ((#[trigger] front[i])[0] == '~') == negated && lower(
                    entry_name(front[i]),
                ) == x;
            assert(all[i] == front[i]);
        }
        assert(all[front.len() as int] == last);
        if exists|i: int|
            0 <= i < all.len() && ((#[trigger] all[i])[0] == '~') == negated && lower(
                entry_name(all[i]),
            ) == x {
            let i = choose|i: int|
                0 <= i < all.len() && ((#[trigger] all[i])[0] == '~') == negated && lower(
                    entry_name(all[i]),
                ) == x;
            if i < front.len() {
                assert(front[i] == all[i]);
                assert(list.contains(x));
            }
        }
    }
}

proof fn lemma_listed(entries: Seq<Seq<char>>)
    requires
        forall|i: int| 0 <= i < entries.len() ==> is_host_entry(#[trigger] entries[i]),
    ensures
        listed_hosts(entries) is Some,
        holds_entries((listed_hosts(entries)->0).0, entries, false),
        holds_entries((listed_hosts(entries)->0).1, entries, true),
    decreases entries.len(),
{
    if entries.len() > 0 {
        let front = entries.drop_last();
        let last = entries.last();
        assert forall|i: int| 0 <= i < front.len() implies is_host_entry(#[trigger] front[i]) by {
            assert(front[i] == entries[i]);
        }
        lemma_listed(front);
        assert(is_host_entry(entries[entries.len() - 1]));
        lemma_host_entry(last);
        let (hosts, not_hosts) = listed_hosts(front)->0;
        lemma_one_more_entry(hosts, front, last, false);
        lemma_one_more_entry(not_hosts, front, last, true);
        assert(front.push(last) =~= entries);
    }
}

proof fn lemma_held_names(
    list: Seq<Seq<char>>,
    entries: Seq<Seq<char>>,
    negated: bool,
    host: Seq<char>,
)
    requires
        holds_entries(list, entries, negated),
    ensures
        any_covers(list, host) == some_entry_names(entries, negated, host),
{
    lemma_some_names(list, host);
    if some_names(list, host) {
        let k = choose|k: int| 0 <= k < list.len() && names(#[trigger] list[k], host);
        assert(list.contains(list[k]));
        let i = choose|i: int|
            0 <= i < entries.len() && ((#[trigger] entries[i])[0] == '~') == negated && lower(
                entry_name(entries[i]),
            ) == list[k];
        assert(names(lower(entry_name(entries[i])), host));
    }
    if some_entry_names(entries, negated, host) {
        let i = choose|i: int|
            0 <= i < entries.len() && ((#[trigger] entries[i])[0] == '~') == negated && names(
                lower(entry_name(entries[i])),
                host,
            );
        assert(list.contains(lower(entry_name(entries[i]))));
        let k = choose|k: int| 0 <= k < list.len() && list[k] == lower(entry_name(entries[i]));
        assert(names(list[k], host));
    }
}

proof fn lemma_joined_hosts(entries: Seq<Seq<char>>)
    requires
        forall|i: int| 0 <= i < entries.len() ==> is_host_entry(#[trigger] entries[i]),
    ensures
        !join(entries, seq![',']).contains('#'),
        !join(entries, seq![',']).contains('$'),
        entries.len() > 0 ==> join(entries, seq![',']).len() > 0,
        entries.len() > 0 ==> join(entries, seq![','])[0] == entries[0][0],
    decreases entries.len(),
{
    let all = join(entries, seq![',']);
    if entries.len() > 0 {
        let front = entries.drop_last();
        let last = entries.last();
        assert(is_host_entry(entries[entries.len() - 1]));
        lemma_host_entry(last);
        assert forall|i: int| 0 <= i < front.len() implies is_host_entry(#[trigger] front[i]) by {
            assert(front[i] == entries[i]);
        }
        lemma_joined_hosts(front);
        if front.len() > 0 {
            let head = join(front, seq![',']);
            assert(all == head + seq![','] + last);
            assert(all[0] == head[0]);
            assert(front[0] == entries[0]);
            assert forall|c: char| (c == '#' || c == '$') implies !(#[trigger] all.contains(c)) by {
                if all.contains(c) {
                    let i = choose|i: int| 0 <= i < all.len() && all[i] == c;
                    if i < head.len() {
                        assert(head[i] == c);
                    } else if i > head.len() {
                        assert(last[i - head.len() - 1] == c);
                    }
                }
            }
            assert(!all.contains('#') && !all.contains('$'));
        } else {
            assert(all == last);
        }
    }
}

/// A line of a host list and a text is a cosmetic rule.
proof fn lemma_cosmetic_type(entries: Seq<Seq<char>>, unhide: bool, body: Seq<char>)
    requires
        forall|i: int| 0 <= i < entries.len() ==> is_host_entry(#[trigger] entries[i]),
        is_body(body),
    ensures
        filter_type_of(cosmetic_line(entries, unhide, body)) == FilterType::Cosmetic,
        trim(cosmetic_line(entries, unhide, body)) == cosmetic_line(entries, unhide, body),
        cosmetic_line(entries, unhide, body).index_of_first('#') == Some(
            join(entries, seq![',']).len() as int,
        ),
{
    let line = cosmetic_line(entries, unhide, body);
    let list = join(entries, seq![',']);
    let n = list.len() as int;
    let mark = if unhide {
        seq!['#', '@', '#']
    } else {
        seq!['#', '#']
    };
    lemma_joined_hosts(entries);
    if entries.len() > 0 {
        assert(is_host_entry(entries[0]));
        lemma_host_entry(entries[0]);
        assert(line[0] == list[0]);
        if is_plain_char(line[0]) {
            lemma_plain_char(line[0]);
        }
    } else {
        assert(list =~= Seq::empty());
        assert(line[0] == '#');
        assert(line[1] == mark[1]);
    }
    assert(line.last() == body.last());
    lemma_trim(line);
    assert(line[n] == '#');
    line.index_of_first_ensures('#');
    let k = line.index_of_first('#')->0;
    if k < n {
        assert(list[k] == '#');
    }
    if k > n {
        assert(line[n] != '#');
    }
    reveal_strlit("[Adblock");
    reveal_strlit("@@|");
    reveal_strlit("$$");
    reveal_strlit("#");
    reveal_strlit("@#");
    if "[Adblock"@.is_prefix_of(line) {
        assert(line[0] == line.subrange(0, "[Adblock"@.len() as int)[0]);
    }
    if "@@|"@.is_prefix_of(line) {
        assert(line[0] == line.subrange(0, "@@|"@.len() as int)[0]);
    }
    assert(find_text(line, "$$"@) is None) by {
        lemma_find_text_from(line, "$$"@, 0);
        if find_text(line, "$$"@) is Some {
            let i = find_text(line, "$$"@)->0;
            assert(occurs_at(line, "$$"@, i));
            let sub = line.subrange(i, i + 2);
            assert(sub =~= "$$"@);
            assert(sub[0] == '$' && sub[1] == '$');
            assert(line[i] == '$' && line[i + 1] == '$');
            if i < n {
                assert(list[i] == '$');
            } else {
                let j = i - n - mark.len();
                assert(j >= 0);
                assert(body[j] == '$' && body[j + 1] == '$');
                assert(body.skip(j).subrange(0, 2) =~= seq!['$', '$']);
                assert(seq!['$', '$'].is_prefix_of(body.skip(j)));
            }
        }
    }
    let rest = line.skip(n + 1);
    assert(rest =~= mark.skip(1) + body);
    if unhide {
        assert(rest.subrange(0, 2) =~= "@#"@);
    } else {
        assert(rest.subrange(0, 1) =~= "#"@);
    }
}

proof fn lemma_line_hosts(entries: Seq<Seq<char>>)
    requires
        forall|i: int| 0 <= i < entries.len() ==> is_host_entry(#[trigger] entries[i]),
    ensures
        listed_hosts(split(join(entries, seq![',']), ',')) matches Some((hosts, not_hosts)) && {
            &&& holds_entries(hosts, entries, false)
            &&& holds_entries(not_hosts, entries, true)
        },
{
    let list = join(entries, seq![',']);
    if entries.len() > 0 {
        assert forall|i: int| 0 <= i < entries.len() implies !(#[trigger] entries[i]).contains(
            ',',
        ) by {
            assert(is_host_entry(entries[i]));
            lemma_host_entry(entries[i]);
        }
        joined_texts_are_split(entries, ',');
        lemma_listed(entries);
    } else {
        let none = Seq::<char>::empty();
        assert(list =~= none);
        joined_texts_are_split(seq![none], ',');
        assert(seq![none].drop_last() =~= Seq::<Seq<char>>::empty());
        assert(join(seq![none], seq![',']) =~= none);
        let one = seq![none];
        assert(split(list, ',') =~= one);
        lemma_trim(none);
        assert(one.last() == none);
        assert(trim(none) =~= none);
        assert(listed_hosts(one.drop_last()) == Some(
            (Seq::<Seq<char>>::empty(), Seq::<Seq<char>>::empty()),
        ));
        assert(listed_hosts(one) == Some((Seq::<Seq<char>>::empty(), Seq::<Seq<char>>::empty())));
    }
}

proof fn lemma_cosmetic_body(entries: Seq<Seq<char>>, unhide: bool, body: Seq<char>)
    requires
        is_body(body),
    ensures
        ({
            let line = cosmetic_line(entries, unhide, body);
            let n = join(entries, seq![',']).len() as int;
            let rest = line.skip(n + 1);
            &&& "@#"@.is_prefix_of(rest) == unhide
            &&& !unhide ==> "#"@.is_prefix_of(rest) && rest.skip(1) == body
            &&& unhide ==> rest.skip(2) == body
            &&& trim(body) == body
            &&& !"^"@.is_prefix_of(body)
            &&& line.take(n) == join(entries, seq![','])
        }),
{
    let line = cosmetic_line(entries, unhide, body);
    let list = join(entries, seq![',']);
    let n = list.len() as int;
    let mark = if unhide {
        seq!['#', '@', '#']
    } else {
        seq!['#', '#']
    };
    let rest = line.skip(n + 1);
    assert(rest =~= mark.skip(1) + body);
    reveal_strlit("#");
    reveal_strlit("@#");
    reveal_strlit("^");
    if unhide {
        assert(rest.subrange(0, 2) =~= "@#"@);
        assert(rest.skip(2) =~= body);
    } else {
        assert(rest.subrange(0, 1) =~= "#"@);
        assert(rest[0] == '#');
        if "@#"@.is_prefix_of(rest) {
            assert(rest[0] == rest.subrange(0, 2)[0]);
        }
        assert(rest.skip(1) =~= body);
    }
    lemma_trim(body);
    if "^"@.is_prefix_of(body) {
        assert(body[0] == body.subrange(0, 1)[0]);
    }
    assert(line.take(n) =~= list);
}

/// What a line of a host list and a text is read as, where the hosts are `hosts` and
/// `not_hosts`.
proof fn lemma_parse_cosmetic(
    entries: Seq<Seq<char>>,
    unhide: bool,
    body: Seq<char>,
    hosts: Seq<Seq<char>>,
    not_hosts: Seq<Seq<char>>,
)
    requires
        is_body(body),
        forall|i: int| 0 <= i < entries.len() ==> is_host_entry(#[trigger] entries[i]),
        parse_action(body).1.len() > 0,
        listed_hosts(split(join(entries, seq![',']), ',')) == Some((hosts, not_hosts)),
        unhide || !(parse_action(body).0 is Hide) ==> hosts.len() > 0,
    ensures
        parse_cosmetic(cosmetic_line(entries, unhide, body)) == Ok::<
            CosmeticRule,
            CosmeticFilterError,
        >(rule_of(unhide, parse_action(body), hosts, not_hosts)),
{
    lemma_cosmetic_type(entries, unhide, body);
    lemma_cosmetic_body(entries, unhide, body);
}

/// A cosmetic rule of its parts.
spec fn rule_of(
    unhide: bool,
    what: (CosmeticAction, Seq<char>),
    hosts: Seq<Seq<char>>,
    not_hosts: Seq<Seq<char>>,
) -> CosmeticRule {
    CosmeticRule { unhide, action: what.0, selector: what.1, hosts, not_hosts }
}

proof fn lemma_line_is_cosmetic(line: Seq<char>, debug: bool, r: CosmeticRule)
    requires
        filter_type_of(line) == FilterType::Cosmetic,
        trim(line) == line,
        line.len() > 0,
        parse_cosmetic(line) == Ok::<CosmeticRule, CosmeticFilterError>(r),
    ensures
        parse_line(line, debug, FilterFormat::Standard) == Ok::<Rule, FilterParseError>(
            Rule::Cosmetic(r),
        ),
{
    reveal(parse_line);
}

/// The rule of a line of a host list and a text.
proof fn lemma_cosmetic_line(
    entries: Seq<Seq<char>>,
    unhide: bool,
    body: Seq<char>,
    debug: bool,
)
    requires
        forall|i: int| 0 <= i < entries.len() ==> is_host_entry(#[trigger] entries[i]),
        is_body(body),
        parse_action(body).1.len() > 0,
        unhide || !(parse_action(body).0 is Hide) ==> exists|i: int|
            0 <= i < entries.len() && (#[trigger] entries[i])[0] != '~',
    ensures
        parse_line(cosmetic_line(entries, unhide, body), debug, FilterFormat::Standard) matches Ok(
            Rule::Cosmetic(r),
        ) && {
            &&& r.unhide == unhide
            &&& r.action == parse_action(body).0
            &&& r.selector == parse_action(body).1
            &&& holds_entries(r.hosts, entries, false)
            &&& holds_entries(r.not_hosts, entries, true)
        },
{
    lemma_line_hosts(entries);
    let (hosts, not_hosts) = listed_hosts(split(join(entries, seq![',']), ','))->0;
    if exists|i: int| 0 <= i < entries.len() && (#[trigger] entries[i])[0] != '~' {
        let i = choose|i: int| 0 <= i < entries.len() && (#[trigger] entries[i])[0] != '~';
        assert(hosts.contains(lower(entry_name(entries[i]))));
        assert(hosts.len() > 0);
    }
    lemma_parse_cosmetic(entries, unhide, body, hosts, not_hosts);
    lemma_cosmetic_type(entries, unhide, body);
    lemma_line_is_cosmetic(
        cosmetic_line(entries, unhide, body),
        debug,
        rule_of(unhide, parse_action(body), hosts, not_hosts),
    );
}

proof fn lemma_selector(s: Seq<char>)
    requires
        is_selector(s),
    ensures
        parse_action(s) == (CosmeticAction::Hide, s),
{
    reveal_strlit("+js(");
    reveal_strlit(":style(");
    reveal_strlit(")");
    if "+js("@.is_prefix_of(s) {
        assert(s[0] == s.subrange(0, 4)[0]);
    }
    lemma_find_text_from(s, ":style("@, 0);
    if find_text(s, ":style("@) is Some {
        let i = find_text(s, ":style("@)->0;
        let needle = seq![':', 's', 't', 'y', 'l', 'e', '('];
        assert(":style("@ =~= needle);
        assert(s.skip(i).subrange(0, 7) =~= s.subrange(i, i + 7));
        assert(needle.is_prefix_of(s.skip(i)));
    }
}

/// A line of a host list and a selector hides the selector on the hosts that one of its
/// entries names and takes that back on those that one with `~` names, at whatever place
/// of the list the entry stands; with `#@#` it is the other way round.
pub proof fn lines_act_on_their_hosts(
    entries: Seq<Seq<char>>,
    unhide: bool,
    selector: Seq<char>,
    debug: bool,
)
    requires
        forall|i: int| 0 <= i < entries.len() ==> is_host_entry(#[trigger] entries[i]),
        is_selector(selector),
        unhide ==> exists|i: int| 0 <= i < entries.len() && (#[trigger] entries[i])[0] != '~',
    ensures
        parse_line(
            cosmetic_line(entries, unhide, selector),
            debug,
            FilterFormat::Standard,
        ) matches Ok(Rule::Cosmetic(r)) && {
            &&& r.unhide == unhide
            &&& r.action == CosmeticAction::Hide
            &&& r.selector == selector
            &&& forall|host: Seq<char>| #[trigger]
                r.acts_on(host) == some_entry_names(entries, unhide, host)
            &&& forall|host: Seq<char>| #[trigger]
                r.takes_back_on(host) == some_entry_names(entries, !unhide, host)
            &&& r.is_generic() == (!unhide && forall|i: int|
                0 <= i < entries.len() ==> (#[trigger] entries[i])[0] == '~')
        },
{
    lemma_selector(selector);
    lemma_cosmetic_line(entries, unhide, selector, debug);
    let r = parse_line(
        cosmetic_line(entries, unhide, selector),
        debug,
        FilterFormat::Standard,
    )->Ok_0->Cosmetic_0;
    assert forall|host: Seq<char>| #[trigger]
        r.acts_on(host) == some_entry_names(entries, unhide, host) by {
        lemma_held_names(r.hosts, entries, false, host);
        lemma_held_names(r.not_hosts, entries, true, host);
    }
    assert forall|host: Seq<char>| #[trigger]
        r.takes_back_on(host) == some_entry_names(entries, !unhide, host) by {
        lemma_held_names(r.hosts, entries, false, host);
        lemma_held_names(r.not_hosts, entries, true, host);
    }
    if r.hosts.len() > 0 {
        assert(r.hosts.contains(r.hosts[0]));
        let i = choose|i: int|
            0 <= i < entries.len() && ((#[trigger] entries[i])[0] == '~') == false && lower(
                entry_name(entries[i]),
            ) == r.hosts[0];
        assert(entries[i][0] != '~');
    } else {
        assert forall|i: int| 0 <= i < entries.len() implies (#[trigger] entries[i])[0] == '~' by {
            if entries[i][0] != '~' {
                assert(r.hosts.contains(lower(entry_name(entries[i]))));
            }
        }
    }
}

/// The text of a style for a selector.
pub open spec fn style_body(selector: Seq<char>, style: Seq<char>) -> Seq<char> {
    selector + seq![':', 's', 't', 'y', 'l', 'e', '('] + style + seq![')']
}

/// The text of a script with arguments.
pub open spec fn script_body(call: Seq<char>) -> Seq<char> {
    seq!['+', 'j', 's', '('] + call + seq![')']
}

/// A line with `:style(..)` gives a style to its selector on its hosts, and one with
/// `+js(..)` calls a script there.
pub proof fn styles_and_scripts(
    entries: Seq<Seq<char>>,
    unhide: bool,
    selector: Seq<char>,
    style: Seq<char>,
    call: Seq<char>,
    debug: bool,
)
    requires
        forall|i: int| 0 <= i < entries.len() ==> is_host_entry(#[trigger] entries[i]),
        exists|i: int| 0 <= i < entries.len() && (#[trigger] entries[i])[0] != '~',
        is_selector(selector),
        call.len() > 0,
        is_without(style_body(selector, style), seq!['$', '$']),
        is_without(script_body(call), seq!['$', '$']),
    ensures
        parse_line(
            cosmetic_line(entries, unhide, style_body(selector, style)),
            debug,
            FilterFormat::Standard,
        ) matches Ok(Rule::Cosmetic(r)) && {
            &&& r.unhide == unhide
            &&& r.action == CosmeticAction::Style(style)
            &&& r.selector == selector
            &&& forall|host: Seq<char>| #[trigger]
                r.acts_on(host) == some_entry_names(entries, unhide, host)
            &&& forall|host: Seq<char>| #[trigger]
                r.takes_back_on(host) == some_entry_names(entries, !unhide, host)
        },
        parse_line(
            cosmetic_line(entries, unhide, script_body(call)),
            debug,
            FilterFormat::Standard,
        ) matches Ok(Rule::Cosmetic(r)) && {
            &&& r.unhide == unhide
            &&& r.action == CosmeticAction::Script
            &&& r.selector == call
            &&& forall|host: Seq<char>| #[trigger]
                r.acts_on(host) == some_entry_names(entries, unhide, host)
            &&& forall|host: Seq<char>| #[trigger]
                r.takes_back_on(host) == some_entry_names(entries, !unhide, host)
        },
{
    lemma_style_body(selector, style);
    lemma_script_body(call);
    lemma_body_acts(entries, unhide, style_body(selector, style), debug);
    lemma_body_acts(entries, unhide, script_body(call), debug);
}

proof fn lemma_body_acts(
    entries: Seq<Seq<char>>,
    unhide: bool,
    body: Seq<char>,
    debug: bool,
)
    requires
        forall|i: int| 0 <= i < entries.len() ==> is_host_entry(#[trigger] entries[i]),
        is_body(body),
        parse_action(body).1.len() > 0,
        exists|i: int| 0 <= i < entries.len() && (#[trigger] entries[i])[0] != '~',
    ensures
        parse_line(cosmetic_line(entries, unhide, body), debug, FilterFormat::Standard) matches Ok(
            Rule::Cosmetic(r),
        ) && {
            &&& r.unhide == unhide
            &&& r.action == parse_action(body).0
            &&& r.selector == parse_action(body).1
            &&& forall|host: Seq<char>| #[trigger]
                r.acts_on(host) == some_entry_names(entries, unhide, host)
            &&& forall|host: Seq<char>| #[trigger]
                r.takes_back_on(host) == some_entry_names(entries, !unhide, host)
        },
{
    lemma_cosmetic_line(entries, unhide, body, debug);
    let r = parse_line(
        cosmetic_line(entries, unhide, body),
        debug,
        FilterFormat::Standard,
    )->Ok_0->Cosmetic_0;
    assert forall|host: Seq<char>| #[trigger]
        r.acts_on(host) == some_entry_names(entries, unhide, host) by {
        lemma_held_names(r.hosts, entries, false, host);
        lemma_held_names(r.not_hosts, entries, true, host);
    }
    assert forall|host: Seq<char>| #[trigger]
        r.takes_back_on(host) == some_entry_names(entries, !unhide, host) by {
        lemma_held_names(r.hosts, entries, false, host);
        lemma_held_names(r.not_hosts, entries, true, host);
    }
}

/// The text before a style.
spec fn style_mark() -> Seq<char> {
    seq![':', 's', 't', 'y', 'l', 'e', '(']
}

proof fn lemma_style_mark(k: int)
    requires
        0 <= k < 7,
    ensures
        style_mark().len() == 7,
        style_mark()[0] == ':',
        k > 0 ==> style_mark()[k] != ':',
        ":style("@ == style_mark(),
{
    reveal_strlit(":style(");
    assert(":style("@ =~= style_mark());
}

#[verifier::rlimit(40)]
proof fn lemma_style_position(selector: Seq<char>, mark: Seq<char>, rest: Seq<char>)
    requires
        mark.len() == 7,
        mark[0] == ':',
        forall|k: int| 0 < k < 7 ==> #[trigger] mark[k] != ':',
        is_without(selector, mark),
    ensures
        find_text(selector + mark + rest, mark) == Some(selector.len() as int),
{
    let s = selector + mark + rest;
    let n = selector.len() as int;
    assert(s.subrange(n, n + 7) =~= mark);
    assert(occurs_at(s, mark, n));
    lemma_find_text_from(s, mark, 0);
    let i = find_text(s, mark)->0;
    if i < n {
        assert(occurs_at(s, mark, i));
        let found = s.subrange(i, i + 7);
        assert(found =~= mark);
        if i + 7 <= n {
            assert(selector.skip(i).subrange(0, 7) =~= found);
            assert(mark.is_prefix_of(selector.skip(i)));
        } else {
            assert(s[n] == mark[0]);
            assert(found[n - i] == s[n]);
            assert(mark[n - i] == ':');
        }
    }
}

proof fn lemma_style_body(selector: Seq<char>, style: Seq<char>)
    requires
        is_selector(selector),
        is_without(style_body(selector, style), seq!['$', '$']),
    ensures
        is_body(style_body(selector, style)),
        parse_action(style_body(selector, style)) == (CosmeticAction::Style(style), selector),
{
    let s = style_body(selector, style);
    let n = selector.len() as int;
    let mark = style_mark();
    assert forall|k: int| 0 < k < 7 implies #[trigger] mark[k] != ':' by {
        lemma_style_mark(k);
    }
    lemma_style_mark(0);
    assert(s =~= selector + mark + (style + seq![')']));
    lemma_style_position(selector, mark, style + seq![')']);
    reveal_strlit("+js(");
    reveal_strlit(")");
    assert(s[0] == selector[0]);
    assert(s.last() == ')');
    if "+js("@.is_prefix_of(s) {
        assert(s[0] == s.subrange(0, 4)[0]);
    }
    assert(s.subrange(s.len() - 1, s.len() as int) =~= ")"@);
    assert(s.subrange(n + 7, s.len() - 1) =~= style);
    assert(s.take(n) =~= selector);
}

proof fn lemma_script_body(call: Seq<char>)
    requires
        call.len() > 0,
        is_without(script_body(call), seq!['$', '$']),
    ensures
        is_body(script_body(call)),
        parse_action(script_body(call)) == (CosmeticAction::Script, call),
{
    let s = script_body(call);
    reveal_strlit("+js(");
    reveal_strlit(")");
    assert(s[0] == '+');
    assert(s.last() == ')');
    assert(s.subrange(0, 4) =~= "+js("@);
    assert(s.subrange(s.len() - 1, s.len() as int) =~= ")"@);
    assert(s.subrange(4, s.len() - 1) =~= call);
}

proof fn lemma_refused_line(line: Seq<char>, debug: bool)
    requires
        filter_type_of(line) == FilterType::Cosmetic,
        trim(line) == line,
        parse_cosmetic(line) is Err,
    ensures
        parse_line(line, debug, FilterFormat::Standard) is Err,
{
    reveal(parse_line);
}

proof fn lemma_no_hosts(entries: Seq<Seq<char>>)
    requires
        forall|i: int|
            0 <= i < entries.len() ==> is_host_entry(#[trigger] entries[i]) && entries[i][0] == '~',
    ensures
        listed_hosts(split(join(entries, seq![',']), ',')) matches Some((hosts, not_hosts))
            && hosts.len() == 0,
{
    lemma_line_hosts(entries);
    let (hosts, not_hosts) = listed_hosts(split(join(entries, seq![',']), ','))->0;
    if hosts.len() > 0 {
        assert(hosts.contains(hosts[0]));
        let i = choose|i: int|
            0 <= i < entries.len() && ((#[trigger] entries[i])[0] == '~') == false && lower(
                entry_name(entries[i]),
            ) == hosts[0];
        assert(entries[i][0] == '~');
    }
}

/// A line without a host that it is for makes no exception, gives no style and calls no
/// script: it holds no rule.
pub proof fn only_hiding_is_generic(
    entries: Seq<Seq<char>>,
    selector: Seq<char>,
    style: Seq<char>,
    call: Seq<char>,
    unhide: bool,
    debug: bool,
)
    requires
        forall|i: int|
            0 <= i < entries.len() ==> is_host_entry(#[trigger] entries[i]) && entries[i][0] == '~',
        is_selector(selector),
        call.len() > 0,
        is_without(style_body(selector, style), seq!['$', '$']),
        is_without(script_body(call), seq!['$', '$']),
    ensures
        parse_line(cosmetic_line(entries, true, selector), debug, FilterFormat::Standard) is Err,
        parse_line(
            cosmetic_line(entries, unhide, style_body(selector, style)),
            debug,
            FilterFormat::Standard,
        ) is Err,
        parse_line(
            cosmetic_line(entries, unhide, script_body(call)),
            debug,
            FilterFormat::Standard,
        ) is Err,
{
    lemma_selector(selector);
    lemma_style_body(selector, style);
    lemma_script_body(call);
    lemma_generic_refused(entries, true, selector, debug);
    lemma_generic_refused(entries, unhide, style_body(selector, style), debug);
    lemma_generic_refused(entries, unhide, script_body(call), debug);
}

proof fn lemma_generic_refused(
    entries: Seq<Seq<char>>,
    unhide: bool,
    body: Seq<char>,
    debug: bool,
)
    requires
        forall|i: int|
            0 <= i < entries.len() ==> is_host_entry(#[trigger] entries[i]) && entries[i][0] == '~',
        is_body(body),
        unhide || !(parse_action(body).0 is Hide),
    ensures
        parse_line(cosmetic_line(entries, unhide, body), debug, FilterFormat::Standard) is Err,
{
    assert forall|i: int| 0 <= i < entries.len() implies is_host_entry(#[trigger] entries[i]) by {}
    lemma_no_hosts(entries);
    lemma_cosmetic_type(entries, unhide, body);
    lemma_cosmetic_body(entries, unhide, body);
    lemma_refused_line(cosmetic_line(entries, unhide, body), debug);
}

/// White space around the entries of a host list does not count, and a blank entry counts
/// for nothing.
pub proof fn white_space_around_hosts(raw: Seq<Seq<char>>, entries: Seq<Seq<char>>, blank: Seq<char>)
    requires
        raw.len() == entries.len(),
        forall|i: int|
            0 <= i < entries.len() ==> trim(raw[i]) == #[trigger] entries[i] && trim(entries[i])
                == entries[i],
        forall|i: int| 0 <= i < blank.len() ==> is_space(#[trigger] blank[i]),
    ensures
        listed_hosts(raw) == listed_hosts(entries),
        listed_hosts(entries.push(blank)) == listed_hosts(entries),
    decreases entries.len(),
{
    let none = Seq::<char>::empty();
    white_space_is_trimmed(blank, none, none);
    assert(blank + none + none =~= blank);
    assert(entries.push(blank).drop_last() =~= entries);
    assert(entries.push(blank).last() == blank);
    match listed_hosts(entries) {
        Some((hosts, not_hosts)) => {},
        None => {},
    }
    if entries.len() > 0 {
        let a = raw.drop_last();
        let b = entries.drop_last();
        assert forall|i: int| 0 <= i < b.len() implies trim(a[i]) == #[trigger] b[i] && trim(b[i])
            == b[i] by {
            assert(b[i] == entries[i] && a[i] == raw[i]);
        }
        white_space_around_hosts(a, b, blank);
        assert(entries[entries.len() - 1] == entries.last());
        assert(trim(raw.last()) == entries.last() && trim(entries.last()) == entries.last());
    }
}

} // verus!

//! What the cosmetic rules of a list do on a page, in terms of the lines of the list.

use vstd::prelude::*;

use crate::cosmetic_filter_cache::{
    excepted_selector, generic_selector, injected, is_specific, nothing_to_do, script_call,
    styled_selector, taken_back, CosmeticModel,
};
use crate::cosmetic_laws::{
    cosmetic_line, is_host_entry, is_in_name, is_name, is_selector, lines_act_on_their_hosts,
    other_selectors_have_no_name, selectors_are_found_by_name, some_entry_names,
};
use crate::engine::{engine_of, lines_set};
use crate::filters::cosmetic::{CosmeticAction, CosmeticRule};
use crate::laws::{generic_rules_can_be_left_out, hidden_by_rule, keyed_selectors, lemma_page_hides};
use crate::lists::{parse_line, FilterFormat, FilterParseError, Rule};
use crate::resources::scriptlet_call;
use crate::seqs::{lemma_contains_pushed, lemma_filter_contains, lemma_filter_map_contains};
use crate::text::{is_space, join, lemma_unique};

verus! {

/// The cosmetic rules of an engine that is made of some lines.
pub open spec fn cosmetics_of(lines: Seq<Seq<char>>, debug: bool, optimize: bool) -> CosmeticModel {
    engine_of(lines_set(lines, FilterFormat::Standard, debug), optimize).cosmetics
}

/// A line performs an action on a selector on a host, or with `back` takes it back.
pub open spec fn line_does(
    line: Seq<char>,
    debug: bool,
    action: CosmeticAction,
    selector: Seq<char>,
    host: Seq<char>,
    back: bool,
) -> bool {
    parse_line(line, debug, FilterFormat::Standard) matches Ok(Rule::Cosmetic(r)) && {
        &&& r.action == action
        &&& r.selector == selector
        &&& if back {
            r.takes_back_on(host)
        } else {
            r.acts_on(host)
        }
    }
}

/// Some line performs an action on a selector on a host, or takes it back.
pub open spec fn some_line_does(
    lines: Seq<Seq<char>>,
    debug: bool,
    action: CosmeticAction,
    selector: Seq<char>,
    host: Seq<char>,
    back: bool,
) -> bool {
    exists|i: int|
        0 <= i < lines.len() && line_does(
            #[trigger] lines[i],
            debug,
            action,
            selector,
            host,
            back,
        )
}

/// The lines have an effect on a host: some line performs the action and none takes it
/// back.
pub open spec fn lines_do(
    lines: Seq<Seq<char>>,
    debug: bool,
    action: CosmeticAction,
    selector: Seq<char>,
    host: Seq<char>,
) -> bool {
    &&& some_line_does(lines, debug, action, selector, host, false)
    &&& !some_line_does(lines, debug, action, selector, host, true)
}

proof fn lemma_line_cosmetics(lines: Seq<Seq<char>>, debug: bool, rule: CosmeticRule)
    ensures
        lines_set(lines, FilterFormat::Standard, debug).debug == debug,
        lines_set(lines, FilterFormat::Standard, debug).cosmetic.contains(rule) <==> exists|i: int|
            0 <= i < lines.len() && parse_line(#[trigger] lines[i], debug, FilterFormat::Standard)
                == Ok::<Rule, FilterParseError>(Rule::Cosmetic(rule)),
    decreases lines.len(),
{
    let format = FilterFormat::Standard;
    if lines.len() > 0 {
        let front = lines.drop_last();
        let line = lines.last();
        lemma_line_cosmetics(front, debug, rule);
        let before = lines_set(front, format, debug);
        if let Ok(Rule::Cosmetic(r)) = parse_line(line, debug, format) {
            lemma_contains_pushed(before.cosmetic, r, rule);
        }
        let wanted = Ok::<Rule, FilterParseError>(Rule::Cosmetic(rule));
        assert(lines[lines.len() - 1] == line);
        if exists|i: int|
            0 <= i < front.len() && parse_line(#[trigger] front[i], debug, format) == wanted {
            let i = choose|i: int|
                0 <= i < front.len() && parse_line(#[trigger] front[i], debug, format) == wanted;
            assert(lines[i] == front[i]);
        }
        if exists|i: int|
            0 <= i < lines.len() && parse_line(#[trigger] lines[i], debug, format) == wanted {
            let i = choose|i: int|
                0 <= i < lines.len() && parse_line(#[trigger] lines[i], debug, format) == wanted;
            if i < front.len() {
                assert(front[i] == lines[i]);
            }
        }
    }
}

/// The rules of a list that speak of hosts.
proof fn lemma_specific(lines: Seq<Seq<char>>, debug: bool, optimize: bool, rule: CosmeticRule)
    ensures
        cosmetics_of(lines, debug, optimize).specific.contains(rule) <==> is_specific(rule)
            && exists|i: int|
            0 <= i < lines.len() && parse_line(#[trigger] lines[i], debug, FilterFormat::Standard)
                == Ok::<Rule, FilterParseError>(Rule::Cosmetic(rule)),
{
    lemma_line_cosmetics(lines, debug, rule);
    lemma_filter_contains(
        lines_set(lines, FilterFormat::Standard, debug).cosmetic,
        |r: CosmeticRule| is_specific(r),
        rule,
    );
}

/// A rule of the list that acts on a host, or takes its action back there, is that of a
/// line.
proof fn lemma_some_rule(
    lines: Seq<Seq<char>>,
    debug: bool,
    optimize: bool,
    action: CosmeticAction,
    selector: Seq<char>,
    host: Seq<char>,
    back: bool,
)
    ensures
        some_line_does(lines, debug, action, selector, host, back) <==> exists|i: int|
            0 <= i < cosmetics_of(lines, debug, optimize).specific.len() && does(
                #[trigger] cosmetics_of(lines, debug, optimize).specific[i],
                action,
                selector,
                host,
                back,
            ),
{
    let rules = cosmetics_of(lines, debug, optimize).specific;
    if some_line_does(lines, debug, action, selector, host, back) {
        let i = choose|i: int|
            0 <= i < lines.len() && line_does(
                #[trigger] lines[i],
                debug,
                action,
                selector,
                host,
                back,
            );
        let r = parse_line(lines[i], debug, FilterFormat::Standard)->Ok_0->Cosmetic_0;
        lemma_specific(lines, debug, optimize, r);
        assert(is_specific(r));
        assert(rules.contains(r));
        let k = choose|k: int| 0 <= k < rules.len() && rules[k] == r;
        assert(does(rules[k], action, selector, host, back));
    }
    if exists|i: int|
        0 <= i < rules.len() && does(#[trigger] rules[i], action, selector, host, back) {
        let k = choose|i: int|
            0 <= i < rules.len() && does(#[trigger] rules[i], action, selector, host, back);
        let r = rules[k];
        assert(rules.contains(r));
        lemma_specific(lines, debug, optimize, r);
        let i = choose|i: int|
            0 <= i < lines.len() && parse_line(#[trigger] lines[i], debug, FilterFormat::Standard)
                == Ok::<Rule, FilterParseError>(Rule::Cosmetic(r));
        assert(line_does(lines[i], debug, action, selector, host, back));
    }
}

/// A rule performs an action on a selector on a host, or takes it back.
spec fn does(
    r: CosmeticRule,
    action: CosmeticAction,
    selector: Seq<char>,
    host: Seq<char>,
    back: bool,
) -> bool {
    &&& r.action == action
    &&& r.selector == selector
    &&& if back {
        r.takes_back_on(host)
    } else {
        r.acts_on(host)
    }
}

proof fn lemma_taken_back(
    lines: Seq<Seq<char>>,
    debug: bool,
    optimize: bool,
    action: CosmeticAction,
    selector: Seq<char>,
    host: Seq<char>,
)
    ensures
        taken_back(cosmetics_of(lines, debug, optimize).specific, action, selector, host)
            == some_line_does(lines, debug, action, selector, host, true),
{
    let rules = cosmetics_of(lines, debug, optimize).specific;
    lemma_some_rule(lines, debug, optimize, action, selector, host, true);
    if taken_back(rules, action, selector, host) {
        let i = choose|i: int|
            0 <= i < rules.len() && (#[trigger] rules[i]).takes_back_on(host) && rules[i].action
                == action && rules[i].selector == selector;
        assert(does(rules[i], action, selector, host, true));
    }
    if some_line_does(lines, debug, action, selector, host, true) {
        let i = choose|i: int|
            0 <= i < rules.len() && does(#[trigger] rules[i], action, selector, host, true);
        assert(rules[i].takes_back_on(host));
    }
}

/// A selector is hidden on a page, where generic rules are left out, if and only if some
/// line of the list hides it on the host, whichever line it is, and none takes that back.
pub proof fn lines_hide_selectors(
    lines: Seq<Seq<char>>,
    debug: bool,
    optimize: bool,
    host: Seq<char>,
    selector: Seq<char>,
)
    ensures
        cosmetics_of(lines, debug, optimize).page(host, true).hide_selectors.contains(selector)
            == lines_do(lines, debug, CosmeticAction::Hide, selector, host),
{
    let cosmetics = cosmetics_of(lines, debug, optimize);
    let rules = cosmetics.specific;
    generic_rules_can_be_left_out(cosmetics, host, selector);
    lemma_taken_back(lines, debug, optimize, CosmeticAction::Hide, selector, host);
    lemma_some_rule(lines, debug, optimize, CosmeticAction::Hide, selector, host, false);
    lemma_hidden_by_rule(cosmetics, host, selector);
}

proof fn lemma_hidden_by_rule(cosmetics: CosmeticModel, host: Seq<char>, selector: Seq<char>)
    ensures
        hidden_by_rule(cosmetics, host, selector) <==> {
            &&& exists|i: int|
                0 <= i < cosmetics.specific.len() && does(
                    #[trigger] cosmetics.specific[i],
                    CosmeticAction::Hide,
                    selector,
                    host,
                    false,
                )
            &&& !taken_back(cosmetics.specific, CosmeticAction::Hide, selector, host)
        },
{
    let rules = cosmetics.specific;
    if hidden_by_rule(cosmetics, host, selector) {
        let i = choose|i: int|
            0 <= i < rules.len() && crate::cosmetic_filter_cache::hidden_selector(
                rules,
                #[trigger] rules[i],
                host,
            ) == Some(selector);
        assert(does(rules[i], CosmeticAction::Hide, selector, host, false));
    }
    if exists|i: int|
        0 <= i < rules.len() && does(
            #[trigger] rules[i],
            CosmeticAction::Hide,
            selector,
            host,
            false,
        ) && !taken_back(rules, CosmeticAction::Hide, selector, host) {
        let i = choose|i: int|
            0 <= i < rules.len() && does(
                #[trigger] rules[i],
                CosmeticAction::Hide,
                selector,
                host,
                false,
            );
        assert(crate::cosmetic_filter_cache::hidden_selector(rules, rules[i], host) == Some(
            selector,
        ));
    }
}

/// The exceptions of a page are the selectors whose hiding some line takes back there.
pub proof fn lines_make_exceptions(
    lines: Seq<Seq<char>>,
    debug: bool,
    optimize: bool,
    host: Seq<char>,
    generichide: bool,
    selector: Seq<char>,
)
    ensures
        cosmetics_of(lines, debug, optimize).page(host, generichide).exceptions.contains(selector)
            == some_line_does(lines, debug, CosmeticAction::Hide, selector, host, true),
{
    let cosmetics = cosmetics_of(lines, debug, optimize);
    let rules = cosmetics.specific;
    let f = |r: CosmeticRule| excepted_selector(r, host);
    lemma_taken_back(lines, debug, optimize, CosmeticAction::Hide, selector, host);
    lemma_unique(rules.filter_map(f));
    lemma_filter_map_contains(rules, f, selector);
    if taken_back(rules, CosmeticAction::Hide, selector, host) {
        let i = choose|i: int|
            0 <= i < rules.len() && (#[trigger] rules[i]).takes_back_on(host) && rules[i].action
                == CosmeticAction::Hide && rules[i].selector == selector;
        assert(f(rules[i]) == Some(selector));
    }
    if rules.filter_map(f).contains(selector) {
        let i = choose|i: int| 0 <= i < rules.len() && f(#[trigger] rules[i]) == Some(selector);
        assert(rules[i].takes_back_on(host) && rules[i].action == CosmeticAction::Hide
            && rules[i].selector == selector);
    }
}

/// A selector gets a style on a page if and only if some line of the list gives it that
/// style on the host and none takes that back.
pub proof fn lines_give_styles(
    lines: Seq<Seq<char>>,
    debug: bool,
    optimize: bool,
    host: Seq<char>,
    generichide: bool,
    selector: Seq<char>,
    style: Seq<char>,
)
    ensures
        cosmetics_of(lines, debug, optimize).page(host, generichide).style_selectors.contains(
            (selector, style),
        ) == lines_do(lines, debug, CosmeticAction::Style(style), selector, host),
{
    let action = CosmeticAction::Style(style);
    let rules = cosmetics_of(lines, debug, optimize).specific;
    let f = |r: CosmeticRule| styled_selector(rules, r, host);
    lemma_taken_back(lines, debug, optimize, action, selector, host);
    lemma_some_rule(lines, debug, optimize, action, selector, host, false);
    lemma_filter_map_contains(rules, f, (selector, style));
    if rules.filter_map(f).contains((selector, style)) {
        let i = choose|i: int|
            0 <= i < rules.len() && f(#[trigger] rules[i]) == Some((selector, style));
        assert(does(rules[i], action, selector, host, false));
    }
    if lines_do(lines, debug, action, selector, host) {
        let i = choose|i: int|
            0 <= i < rules.len() && does(#[trigger] rules[i], action, selector, host, false);
        assert(f(rules[i]) == Some((selector, style)));
    }
}

/// A script is called on a page if and only if some line of the list calls it on the host
/// and none takes that back.
pub proof fn lines_call_scripts(
    lines: Seq<Seq<char>>,
    debug: bool,
    optimize: bool,
    host: Seq<char>,
    call: Seq<char>,
)
    ensures
        cosmetics_of(lines, debug, optimize).calls(host).contains(call) == lines_do(
            lines,
            debug,
            CosmeticAction::Script,
            call,
            host,
        ),
{
    let action = CosmeticAction::Script;
    let rules = cosmetics_of(lines, debug, optimize).specific;
    let f = |r: CosmeticRule| script_call(rules, r, host);
    lemma_taken_back(lines, debug, optimize, action, call, host);
    lemma_some_rule(lines, debug, optimize, action, call, host, false);
    lemma_unique(rules.filter_map(f));
    lemma_filter_map_contains(rules, f, call);
    if rules.filter_map(f).contains(call) {
        let i = choose|i: int| 0 <= i < rules.len() && f(#[trigger] rules[i]) == Some(call);
        assert(does(rules[i], action, call, host, false));
    }
    if lines_do(lines, debug, action, call, host) {
        let i = choose|i: int|
            0 <= i < rules.len() && does(#[trigger] rules[i], action, call, host, false);
        assert(f(rules[i]) == Some(call));
    }
}

/// The scripts of some calls and of more are those of the first and then those of the
/// others. Each is put between `try {` and `} catch ( e ) { }`.
pub proof fn scripts_are_injected_in_turn(
    map: Map<Seq<char>, Seq<char>>,
    a: Seq<Seq<char>>,
    b: Seq<Seq<char>>,
    call: Seq<char>,
)
    ensures
        injected(map, a + b) == injected(map, a) + injected(map, b),
        injected(map, seq![call]) == match scriptlet_call(map, call) {
            Some(script) => "try {\n"@ + script + "\n} catch ( e ) { }\n"@,
            None => Seq::<char>::empty(),
        },
        injected(map, Seq::empty()) == Seq::<char>::empty(),
    decreases b.len(),
{
    if b.len() > 0 {
        let ab = a + b;
        assert(ab.drop_last() =~= a + b.drop_last());
        assert(ab.last() == b.last());
        scripts_are_injected_in_turn(map, a, b.drop_last(), call);
        assert(injected(map, ab) =~= injected(map, a) + injected(map, b));
    } else {
        assert(a + b =~= a);
        assert(injected(map, a) + injected(map, b) =~= injected(map, a));
    }
    assert(seq![call].drop_last() =~= Seq::<Seq<char>>::empty());
    assert(injected(map, seq![call].drop_last()) =~= Seq::<char>::empty());
    assert(seq![call].last() == call);
    match scriptlet_call(map, call) {
        Some(script) => {
            assert(injected(map, seq![call]) =~= "try {\n"@ + script + "\n} catch ( e ) { }\n"@);
        },
        None => {},
    }
}

/// A line stands for a generic rule with a selector.
pub open spec fn line_is_generic(line: Seq<char>, debug: bool, selector: Seq<char>) -> bool {
    parse_line(line, debug, FilterFormat::Standard) matches Ok(Rule::Cosmetic(r)) && {
        &&& r.is_generic()
        &&& r.selector == selector
    }
}

/// The generic selectors are those of generic lines.
proof fn lemma_generic(
    lines: Seq<Seq<char>>,
    debug: bool,
    optimize: bool,
    selector: Seq<char>,
)
    ensures
        cosmetics_of(lines, debug, optimize).generic.contains(selector) <==> exists|i: int|
            0 <= i < lines.len() && line_is_generic(#[trigger] lines[i], debug, selector),
{
    let rules = lines_set(lines, FilterFormat::Standard, debug).cosmetic;
    let f = |r: CosmeticRule| generic_selector(r);
    lemma_unique(rules.filter_map(f));
    lemma_filter_map_contains(rules, f, selector);
    if rules.filter_map(f).contains(selector) {
        let k = choose|k: int| 0 <= k < rules.len() && f(#[trigger] rules[k]) == Some(selector);
        let r = rules[k];
        assert(rules.contains(r));
        lemma_line_cosmetics(lines, debug, r);
        let i = choose|i: int|
            0 <= i < lines.len() && parse_line(#[trigger] lines[i], debug, FilterFormat::Standard)
                == Ok::<Rule, FilterParseError>(Rule::Cosmetic(r));
        assert(line_is_generic(lines[i], debug, selector));
    }
    if exists|i: int|
        0 <= i < lines.len() && line_is_generic(#[trigger] lines[i], debug, selector) {
        let i = choose|i: int|
            0 <= i < lines.len() && line_is_generic(#[trigger] lines[i], debug, selector);
        let r = parse_line(lines[i], debug, FilterFormat::Standard)->Ok_0->Cosmetic_0;
        lemma_line_cosmetics(lines, debug, r);
        assert(rules.contains(r));
        let k = choose|k: int| 0 <= k < rules.len() && rules[k] == r;
        assert(f(rules[k]) == Some(selector));
    }
}

/// A line `##` with a selector.
pub open spec fn generic_line(selector: Seq<char>) -> Seq<char> {
    seq!['#', '#'] + selector
}

proof fn lemma_generic_line(selector: Seq<char>, debug: bool)
    requires
        is_selector(selector),
    ensures
        line_is_generic(generic_line(selector), debug, selector),
{
    let none = Seq::<Seq<char>>::empty();
    assert(join(none, seq![',']) =~= Seq::<char>::empty());
    assert(cosmetic_line(none, false, selector) =~= generic_line(selector));
    lines_act_on_their_hosts(none, false, selector, debug);
}

/// A list with a line `##.name` or `###name` gives the selector for the class, or the id,
/// of that name, among whatever others it stands and whatever follows the name in the
/// selector, unless the selector is among the exceptions; and for no other name.
pub proof fn generic_selectors_are_found_by_name(
    lines: Seq<Seq<char>>,
    i: int,
    debug: bool,
    optimize: bool,
    mark: char,
    name: Seq<char>,
    rest: Seq<char>,
    names: Seq<Seq<char>>,
    exceptions: Seq<Seq<char>>,
)
    requires
        0 <= i < lines.len(),
        lines[i] == generic_line(seq![mark] + name + rest),
        mark == '.' || mark == '#',
        is_name(name),
        rest.len() > 0 ==> !is_in_name(rest[0]),
        !rest.contains(',') && !rest.contains('\\'),
        is_selector(seq![mark] + name + rest),
    ensures
        cosmetics_of(lines, debug, optimize).keyed(mark, names, exceptions).contains(
            seq![mark] + name + rest,
        ) == (names.contains(name) && !exceptions.contains(seq![mark] + name + rest)),
{
    let selector = seq![mark] + name + rest;
    let cosmetics = cosmetics_of(lines, debug, optimize);
    lemma_generic_line(selector, debug);
    assert(line_is_generic(lines[i], debug, selector));
    lemma_generic(lines, debug, optimize, selector);
    selectors_are_found_by_name(name, rest, mark);
    keyed_selectors(cosmetics, mark, names, exceptions, selector);
}

/// A name of ASCII letters, digits, `-` and `_` is a selector behind `.` or `#`.
pub proof fn plain_names_are_selectors(mark: char, name: Seq<char>)
    requires
        mark == '.' || mark == '#',
        is_name(name),
        forall|i: int| 0 <= i < name.len() ==> (#[trigger] name[i]) as u32 <= 0x7f,
    ensures
        is_selector(seq![mark] + name + Seq::empty()),
{
    let s = seq![mark] + name + Seq::empty();
    assert forall|i: int| 1 <= i < s.len() implies #[trigger] s[i] == name[i - 1] && is_in_name(s[i])
        && s[i] as u32 <= 0x7f by {
        assert(is_in_name(name[i - 1]));
    }
    let l = s.len() - 1;
    assert(is_in_name(s[l]));
    lemma_in_name(s[l]);
    assert forall|i: int| 0 <= i < s.len() implies !seq!['$', '$'].is_prefix_of(
        #[trigger] s.skip(i),
    ) by {
        if seq!['$', '$'].is_prefix_of(s.skip(i)) {
            assert(s.skip(i).subrange(0, 2)[1] == '$');
            assert(s[i + 1] == '$');
            lemma_in_name(s[i + 1]);
        }
    }
    let style = seq![':', 's', 't', 'y', 'l', 'e', '('];
    assert forall|i: int| 0 <= i < s.len() implies !style.is_prefix_of(#[trigger] s.skip(i)) by {
        if style.is_prefix_of(s.skip(i)) {
            assert(s.skip(i).subrange(0, 7)[6] == '(');
            assert(s[i + 6] == '(');
            lemma_in_name(s[i + 6]);
        }
    }
}

proof fn lemma_in_name(c: char)
    requires
        is_in_name(c),
        c as u32 <= 0x7f,
    ensures
        !is_space(c) && c != '$' && c != '(',
{
}

/// A list with a line `##` and a selector that neither a class nor an id is looked up for
/// hides the selector on every page to which generic rules are applied, unless some line
/// takes that back there.
pub proof fn generic_lines_hide_selectors(
    lines: Seq<Seq<char>>,
    i: int,
    debug: bool,
    optimize: bool,
    selector: Seq<char>,
    host: Seq<char>,
)
    requires
        0 <= i < lines.len(),
        lines[i] == generic_line(selector),
        is_selector(selector),
        (selector[0] != '.' && selector[0] != '#') || selector.contains(',') || selector.contains(
            '\\',
        ),
    ensures
        cosmetics_of(lines, debug, optimize).page(host, false).hide_selectors.contains(selector)
            == !some_line_does(lines, debug, CosmeticAction::Hide, selector, host, true),
{
    let cosmetics = cosmetics_of(lines, debug, optimize);
    lemma_generic_line(selector, debug);
    assert(line_is_generic(lines[i], debug, selector));
    lemma_generic(lines, debug, optimize, selector);
    other_selectors_have_no_name(selector);
    lemma_taken_back(lines, debug, optimize, CosmeticAction::Hide, selector, host);
    lemma_page_hides(cosmetics, host, false, selector);
    lemma_hidden_by_rule(cosmetics, host, selector);
}

/// A line for the hosts of two lists does what a line for the one and a line for the
/// other do together: put in place of it, they change neither what is hidden nor what is
/// excepted on any page. So the order of the hosts does not count.
pub proof fn hosts_can_be_parted(
    before: Seq<Seq<char>>,
    after: Seq<Seq<char>>,
    a: Seq<Seq<char>>,
    b: Seq<Seq<char>>,
    unhide: bool,
    selector: Seq<char>,
    debug: bool,
    optimize: bool,
    host: Seq<char>,
    other: Seq<char>,
)
    requires
        a.len() > 0 && b.len() > 0,
        forall|i: int|
            0 <= i < a.len() ==> is_host_entry(#[trigger] a[i]) && a[i][0] != '~',
        forall|i: int|
            0 <= i < b.len() ==> is_host_entry(#[trigger] b[i]) && b[i][0] != '~',
        is_selector(selector),
    ensures
        cosmetics_of(
            before + seq![cosmetic_line(a + b, unhide, selector)] + after,
            debug,
            optimize,
        ).page(host, true).hide_selectors.contains(other) == cosmetics_of(
            before + seq![
                cosmetic_line(a, unhide, selector),
                cosmetic_line(b, unhide, selector),
            ] + after,
            debug,
            optimize,
        ).page(host, true).hide_selectors.contains(other),
        cosmetics_of(
            before + seq![cosmetic_line(a + b, unhide, selector)] + after,
            debug,
            optimize,
        ).page(host, true).exceptions.contains(other) == cosmetics_of(
            before + seq![
                cosmetic_line(a, unhide, selector),
                cosmetic_line(b, unhide, selector),
            ] + after,
            debug,
            optimize,
        ).page(host, true).exceptions.contains(other),
{
    let one = seq![cosmetic_line(a + b, unhide, selector)];
    let two = seq![cosmetic_line(a, unhide, selector), cosmetic_line(b, unhide, selector)];
    let x = before + one + after;
    let y = before + two + after;
    let hide = CosmeticAction::Hide;
    lines_hide_selectors(x, debug, optimize, host, other);
    lines_hide_selectors(y, debug, optimize, host, other);
    lines_make_exceptions(x, debug, optimize, host, true, other);
    lines_make_exceptions(y, debug, optimize, host, true, other);
    lemma_parted(a, b, unhide, selector, debug, host, other, false);
    lemma_parted(a, b, unhide, selector, debug, host, other, true);
    lemma_some_of_three(before, one, after, debug, other, host, false);
    lemma_some_of_three(before, two, after, debug, other, host, false);
    lemma_some_of_three(before, one, after, debug, other, host, true);
    lemma_some_of_three(before, two, after, debug, other, host, true);
}

proof fn lemma_some_of_three(
    before: Seq<Seq<char>>,
    some: Seq<Seq<char>>,
    after: Seq<Seq<char>>,
    debug: bool,
    selector: Seq<char>,
    host: Seq<char>,
    back: bool,
)
    ensures
        some_line_does(before + some + after, debug, CosmeticAction::Hide, selector, host, back)
            == (some_line_does(before, debug, CosmeticAction::Hide, selector, host, back)
            || some_line_does(some, debug, CosmeticAction::Hide, selector, host, back)
            || some_line_does(after, debug, CosmeticAction::Hide, selector, host, back)),
{
    let hide = CosmeticAction::Hide;
    let all = before + some + after;
    let n = before.len();
    let m = some.len();
    if some_line_does(before, debug, hide, selector, host, back) {
        let i = choose|i: int|
            0 <= i < n && line_does(#[trigger] before[i], debug, hide, selector, host, back);
        assert(line_does(all[i], debug, hide, selector, host, back));
    }
    if some_line_does(some, debug, hide, selector, host, back) {
        let i = choose|i: int|
            0 <= i < m && line_does(#[trigger] some[i], debug, hide, selector, host, back);
        assert(line_does(all[n + i], debug, hide, selector, host, back));
    }
    if some_line_does(after, debug, hide, selector, host, back) {
        let i = choose|i: int|
            0 <= i < after.len() && line_does(#[trigger] after[i], debug, hide, selector, host, back);
        assert(line_does(all[n + m + i], debug, hide, selector, host, back));
    }
    if some_line_does(all, debug, hide, selector, host, back) {
        let i = choose|i: int|
            0 <= i < all.len() && line_does(#[trigger] all[i], debug, hide, selector, host, back);
        if i < n {
            assert(line_does(before[i], debug, hide, selector, host, back));
        } else if i < n + m {
            assert(line_does(some[i - n], debug, hide, selector, host, back));
        } else {
            assert(line_does(after[i - n - m], debug, hide, selector, host, back));
        }
    }
}

proof fn lemma_parted(
    a: Seq<Seq<char>>,
    b: Seq<Seq<char>>,
    unhide: bool,
    selector: Seq<char>,
    debug: bool,
    host: Seq<char>,
    other: Seq<char>,
    back: bool,
)
    requires
        a.len() > 0 && b.len() > 0,
        forall|i: int|
            0 <= i < a.len() ==> is_host_entry(#[trigger] a[i]) && a[i][0] != '~',
        forall|i: int|
            0 <= i < b.len() ==> is_host_entry(#[trigger] b[i]) && b[i][0] != '~',
        is_selector(selector),
    ensures
        some_line_does(
            seq![cosmetic_line(a + b, unhide, selector)],
            debug,
            CosmeticAction::Hide,
            other,
            host,
            back,
        ) == some_line_does(
            seq![cosmetic_line(a, unhide, selector), cosmetic_line(b, unhide, selector)],
            debug,
            CosmeticAction::Hide,
            other,
            host,
            back,
        ),
{
    let ab = a + b;
    let hide = CosmeticAction::Hide;
    assert forall|i: int| 0 <= i < ab.len() implies is_host_entry(#[trigger] ab[i]) && ab[i][0]
        != '~' by {
        if i < a.len() {
            assert(ab[i] == a[i]);
        } else {
            assert(ab[i] == b[i - a.len()]);
        }
    }
    assert(a[0][0] != '~' && b[0][0] != '~' && ab[0][0] != '~');
    lines_act_on_their_hosts(a, unhide, selector, debug);
    lines_act_on_their_hosts(b, unhide, selector, debug);
    lines_act_on_their_hosts(ab, unhide, selector, debug);
    let negated = back != unhide;
    lemma_entries_add_up(a, b, negated, host);
    let la = cosmetic_line(a, unhide, selector);
    let lb = cosmetic_line(b, unhide, selector);
    let lab = cosmetic_line(ab, unhide, selector);
    assert(line_does(la, debug, hide, other, host, back) == (other == selector
        && some_entry_names(a, negated, host)));
    assert(line_does(lb, debug, hide, other, host, back) == (other == selector
        && some_entry_names(b, negated, host)));
    assert(line_does(lab, debug, hide, other, host, back) == (other == selector
        && some_entry_names(ab, negated, host)));
    let one = seq![lab];
    let two = seq![la, lb];
    assert(one[0] == lab && two[0] == la && two[1] == lb);
    if some_line_does(two, debug, hide, other, host, back) {
        let i = choose|i: int|
            0 <= i < two.len() && line_does(#[trigger] two[i], debug, hide, other, host, back);
        assert(i == 0 || i == 1);
        assert(line_does(one[0], debug, hide, other, host, back));
    }
    if some_line_does(one, debug, hide, other, host, back) {
        assert(line_does(two[0], debug, hide, other, host, back) || line_does(
            two[1],
            debug,
            hide,
            other,
            host,
            back,
        ));
    }
}

proof fn lemma_entries_add_up(
    a: Seq<Seq<char>>,
    b: Seq<Seq<char>>,
    negated: bool,
    host: Seq<char>,
)
    ensures
        some_entry_names(a + b, negated, host) == (some_entry_names(a, negated, host)
            || some_entry_names(b, negated, host)),
{
    let ab = a + b;
    assert forall|i: int| 0 <= i < a.len() implies #[trigger] a[i] == ab[i] by {}
    assert forall|i: int| 0 <= i < b.len() implies #[trigger] b[i] == ab[a.len() + i] by {}
    if some_entry_names(ab, negated, host) {
        let i = choose|i: int|
            0 <= i < ab.len() && ((#[trigger] ab[i])[0] == '~') == negated
                && crate::cosmetic_laws::names(
                crate::text::lower(crate::cosmetic_laws::entry_name(ab[i])),
                host,
            );
        if i < a.len() {
            assert(a[i] == ab[i]);
        } else {
            assert(b[i - a.len()] == ab[i]);
        }
    }
}

/// Whether generic rules are left out changes nothing on a page but the selectors that they
/// hide; it is told along. No selector, exception or call stands twice.
pub proof fn pages_with_and_without_generic_rules(
    cosmetics: CosmeticModel,
    host: Seq<char>,
    selector: Seq<char>,
)
    ensures
        ({
            let with = cosmetics.page(host, false);
            let without = cosmetics.page(host, true);
            &&& without.generichide && !with.generichide
            &&& with.exceptions == without.exceptions
            &&& with.style_selectors == without.style_selectors
            &&& with.injected_script == without.injected_script
            &&& without.hide_selectors.contains(selector) ==> with.hide_selectors.contains(selector)
            &&& with.hide_selectors.no_duplicates() && without.hide_selectors.no_duplicates()
            &&& with.exceptions.no_duplicates()
            &&& cosmetics.calls(host).no_duplicates()
            &&& with.injected_script == injected(cosmetics.scriptlets, cosmetics.calls(host))
        }),
{
    lemma_page_hides(cosmetics, host, true, selector);
    lemma_page_hides(cosmetics, host, false, selector);
    lemma_unique(cosmetics.specific_hides(host));
    lemma_unique(cosmetics.specific_hides(host) + cosmetics.generic_hides(host));
    lemma_unique(
        cosmetics.specific.filter_map(|r: CosmeticRule| excepted_selector(r, host)),
    );
    lemma_unique(
        cosmetics.specific.filter_map(
            |r: CosmeticRule| script_call(cosmetics.specific, r, host),
        ),
    );
}

/// Nothing is to be done on what is no page: nothing is hidden, styled, excepted or injected.
pub proof fn nothing_is_done_elsewhere()
    ensures
        nothing_to_do().hide_selectors.len() == 0,
        nothing_to_do().style_selectors.len() == 0,
        nothing_to_do().exceptions.len() == 0,
        nothing_to_do().injected_script.len() == 0,
        !nothing_to_do().generichide,
{
}

/// A generic selector is kept once, however many lines name it.
pub proof fn generic_selectors_are_kept_once(
    lines: Seq<Seq<char>>,
    debug: bool,
    optimize: bool,
)
    ensures
        cosmetics_of(lines, debug, optimize).generic.no_duplicates(),
{
    let rules = lines_set(lines, FilterFormat::Standard, debug).cosmetic;
    lemma_unique(rules.filter_map(|r: CosmeticRule| generic_selector(r)));
}

} // verus!

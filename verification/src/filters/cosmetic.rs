//! Cosmetic rules: which page elements to hide or restyle, and which scripts to
//! inject.
//!
//! A rule is a list of host names, `##` or, for an exception, `#@#`, and a
//! selector.

use vstd::prelude::*;
use vstd::slice::{slice_subrange, slice_to_vec};

use crate::filters::network::{copy_texts, is_within, within};
use crate::outside::{find_root_domain, root_domain};
use crate::text::{
    chars_of, ends_with, find, find_text, opt_text, search, split, split_at, starts_with,
    string_of, texts, trim, trimmed,
};
use crate::url_parser::{ascii_form, to_ascii_form};

verus! {

/// Why a line is no cosmetic rule.
#[derive(Clone, Copy, Debug, PartialEq, Eq, Structural)]
pub enum CosmeticFilterError {
    MissingSharp,
    UnsupportedSyntax,
    InvalidHostname,
    EmptySelector,
    GenericUnhide,
    GenericStyle,
    GenericScriptInject,
}

/// What a cosmetic rule does to the elements that its selector names.
pub enum CosmeticAction {
    /// Hides them.
    Hide,
    /// Gives them a style.
    Style(Seq<char>),
    /// Injects a script; the selector holds the arguments.
    Script,
}

/// A cosmetic rule.
#[verifier::ext_equal]
pub struct CosmeticRule {
    /// Whether the rule takes the action back.
    pub unhide: bool,
    pub action: CosmeticAction,
    pub selector: Seq<char>,
    /// The hosts that the rule is for; none for any host.
    pub hosts: Seq<Seq<char>>,
    /// The hosts on which the rule is turned round.
    pub not_hosts: Seq<Seq<char>>,
}

/// A host name without the suffix under which its domain is registered.
pub open spec fn entity_of(host: Seq<char>) -> Option<Seq<char>> {
    match root_domain(host) {
        Some(domain) => entity_under(host, domain),
        None => None,
    }
}

/// A host name that ends in a domain, without what follows the first label of the
/// domain.
pub open spec fn entity_under(host: Seq<char>, domain: Seq<char>) -> Option<Seq<char>> {
    match domain.index_of_first('.') {
        Some(i) if domain.len() <= host.len() => Some(host.take(host.len() - domain.len() + i)),
        _ => None,
    }
}

/// An entry of a host list covers a host: it names the host or a domain above
/// it; one that ends in `.*` does so under any suffix.
pub open spec fn entry_covers(entry: Seq<char>, host: Seq<char>) -> bool {
    if ".*"@.is_suffix_of(entry) {
        match entity_of(host) {
            Some(entity) => within(entity, entry.take(entry.len() - 2)),
            None => false,
        }
    } else {
        within(host, entry)
    }
}

/// Some entry of a host list covers a host.
pub open spec fn any_covers(entries: Seq<Seq<char>>, host: Seq<char>) -> bool {
    exists|i: int| 0 <= i < entries.len() && entry_covers(#[trigger] entries[i], host)
}

impl CosmeticRule {
    /// The rule hides elements on every host.
    pub open spec fn is_generic(self) -> bool {
        !self.unhide && self.action is Hide && self.hosts.len() == 0
    }

    /// The rule performs its action on the host: it is one for the host, or one
    /// that takes the action back and is turned round there.
    pub open spec fn acts_on(self, host: Seq<char>) -> bool {
        if self.unhide {
            any_covers(self.not_hosts, host)
        } else {
            any_covers(self.hosts, host)
        }
    }

    /// The rule takes its action back on the host.
    pub open spec fn takes_back_on(self, host: Seq<char>) -> bool {
        if self.unhide {
            any_covers(self.hosts, host)
        } else {
            any_covers(self.not_hosts, host)
        }
    }
}

/// The hosts that a list names and those that it rules out; blank entries count
/// for nothing, and none where an entry is no host name.
pub open spec fn listed_hosts(entries: Seq<Seq<char>>) -> Option<(Seq<Seq<char>>, Seq<Seq<char>>)>
    decreases entries.len(),
{
    if entries.len() == 0 {
        Some((Seq::empty(), Seq::empty()))
    } else {
        let entry = trim(entries.last());
        let negated = entry.len() > 0 && entry[0] == '~';
        let name = if negated {
            entry.skip(1)
        } else {
            entry
        };
        match listed_hosts(entries.drop_last()) {
            None => None,
            Some((hosts, not_hosts)) => if name.len() == 0 {
                Some((hosts, not_hosts))
            } else {
                match ascii_form(name) {
                    None => None,
                    Some(host) => if negated {
                        Some((hosts, not_hosts.push(host)))
                    } else {
                        Some((hosts.push(host), not_hosts))
                    },
                }
            },
        }
    }
}

/// The action and the selector that the text behind the sharps stands for.
pub open spec fn parse_action(s: Seq<char>) -> (CosmeticAction, Seq<char>) {
    if "+js("@.is_prefix_of(s) && ")"@.is_suffix_of(s) {
        (CosmeticAction::Script, s.subrange(4, s.len() - 1))
    } else {
        match find_text(s, ":style("@) {
            Some(i) if ")"@.is_suffix_of(s) => (
                CosmeticAction::Style(s.subrange(i + 7, s.len() - 1)),
                s.take(i),
            ),
            _ => (CosmeticAction::Hide, s),
        }
    }
}

/// The cosmetic rule that a line stands for.
pub open spec fn parse_cosmetic(line: Seq<char>) -> Result<CosmeticRule, CosmeticFilterError> {
    match line.index_of_first('#') {
        None => Err(CosmeticFilterError::MissingSharp),
        Some(sharp) => {
            let rest = line.skip(sharp + 1);
            let unhide = "@#"@.is_prefix_of(rest);
            if !unhide && !"#"@.is_prefix_of(rest) {
                Err(CosmeticFilterError::UnsupportedSyntax)
            } else {
                let body = trim(
                    if unhide {
                        rest.skip(2)
                    } else {
                        rest.skip(1)
                    },
                );
                let (action, selector) = parse_action(body);
                match listed_hosts(split(line.take(sharp), ',')) {
                    None => Err(CosmeticFilterError::InvalidHostname),
                    Some((hosts, not_hosts)) => if "^"@.is_prefix_of(body) {
                        Err(CosmeticFilterError::UnsupportedSyntax)
                    } else if selector.len() == 0 {
                        Err(CosmeticFilterError::EmptySelector)
                    } else if hosts.len() == 0 && unhide {
                        Err(CosmeticFilterError::GenericUnhide)
                    } else if hosts.len() == 0 && action is Style {
                        Err(CosmeticFilterError::GenericStyle)
                    } else if hosts.len() == 0 && action is Script {
                        Err(CosmeticFilterError::GenericScriptInject)
                    } else {
                        Ok(CosmeticRule { unhide, action, selector, hosts, not_hosts })
                    },
                }
            }
        },
    }
}

/// The characters that a class or an id is named by.
pub open spec fn is_name_char(c: char) -> bool {
    ('a' <= c <= 'z') || ('A' <= c <= 'Z') || ('0' <= c <= '9') || c == '_' || c == '-' || c
        >= '\u{80}'
}

/// How many characters of `s` name a class or an id.
pub open spec fn name_len(s: Seq<char>) -> int
    decreases s.len(),
{
    if s.len() == 0 || !is_name_char(s[0]) {
        0
    } else {
        1 + name_len(s.drop_first())
    }
}

/// The name that a selector needs an element to have: a class for the mark `.`,
/// an id for the mark `#`. A list of selectors needs none, and none is read out
/// of one with an escape.
pub open spec fn selector_key(selector: Seq<char>, mark: char) -> Option<Seq<char>> {
    if selector.len() > 0 && selector[0] == mark && name_len(selector.skip(1)) > 0
        && !selector.contains(',') && !selector.contains('\\') {
        Some(selector.subrange(1, 1 + name_len(selector.skip(1))))
    } else {
        None
    }
}

/// A cosmetic rule.
#[derive(Debug)]
pub struct CosmeticFilter {
    pub unhide: bool,
    /// Whether the rule injects a script.
    pub script: bool,
    /// The style that the rule gives, where it gives one.
    pub style: Option<String>,
    pub selector: String,
    pub hosts: Vec<Vec<char>>,
    pub not_hosts: Vec<Vec<char>>,
}

impl View for CosmeticFilter {
    type V = CosmeticRule;

    open spec fn view(&self) -> CosmeticRule {
        CosmeticRule {
            unhide: self.unhide,
            action: match self.style {
                Some(style) => CosmeticAction::Style(style@),
                None => if self.script {
                    CosmeticAction::Script
                } else {
                    CosmeticAction::Hide
                },
            },
            selector: self.selector@,
            hosts: texts(self.hosts@),
            not_hosts: texts(self.not_hosts@),
        }
    }
}

/// The rules that a list of filters holds.
pub open spec fn cosmetic_rules(filters: Seq<CosmeticFilter>) -> Seq<CosmeticRule> {
    filters.map_values(|f: CosmeticFilter| f@)
}

/// A host name that ends in a domain, without what follows the first label of the
/// domain.
pub fn cut_entity(host: &[char], domain: &[char]) -> (r: Option<Vec<char>>)
    ensures
        match r {
            Some(entity) => entity_under(host@, domain@) == Some(entity@),
            None => entity_under(host@, domain@) is None,
        },
{
    match find(domain, '.') {
        Some(i) => if domain.len() <= host.len() {
            let end: usize = host.len() - domain.len() + i;
            let entity = slice_subrange(host, 0, end);
            assert(entity@ =~= host@.take(end as int));
            Some(slice_to_vec(entity))
        } else {
            None
        },
        None => None,
    }
}

/// A host name without the suffix under which its domain is registered.
fn find_entity(host: &[char]) -> (r: Option<Vec<char>>)
    ensures
        match r {
            Some(entity) => entity_of(host@) == Some(entity@),
            None => entity_of(host@) is None,
        },
{
    match find_root_domain(string_of(host).as_str()) {
        Some(domain) => cut_entity(host, chars_of(domain.as_str()).as_slice()),
        None => None,
    }
}

/// A host and its form without a suffix, as host lists are held against it.
pub struct HostKey {
    host: Vec<char>,
    entity: Option<Vec<char>>,
}

impl HostKey {
    /// The host.
    pub closed spec fn name(&self) -> Seq<char> {
        self.host@
    }

    /// The entity is that of the host.
    pub closed spec fn wf(&self) -> bool {
        match self.entity {
            Some(entity) => entity_of(self.host@) == Some(entity@),
            None => entity_of(self.host@) is None,
        }
    }

    /// The key of a host name.
    pub fn new(host: &[char]) -> (r: HostKey)
        ensures
            r.wf(),
            r.name() == host@,
    {
        HostKey { host: slice_to_vec(host), entity: find_entity(host) }
    }

    fn covered_by(&self, entry: &[char]) -> (r: bool)
        requires
            self.wf(),
        ensures
            r == entry_covers(entry@, self.name()),
    {
        proof {
            reveal_strlit(".*");
        }
        if ends_with(entry, ".*") {
            match &self.entity {
                Some(entity) => {
                    let stem = slice_subrange(entry, 0, entry.len() - 2);
                    assert(stem@ =~= entry@.take(entry@.len() - 2));
                    is_within(entity.as_slice(), stem)
                },
                None => false,
            }
        } else {
            is_within(self.host.as_slice(), entry)
        }
    }

    /// Whether some entry of a host list covers the host.
    pub fn covered_by_any(&self, entries: &Vec<Vec<char>>) -> (r: bool)
        requires
            self.wf(),
        ensures
            r == any_covers(texts(entries@), self.name()),
    {
        let mut i: usize = 0;
        while i < entries.len()
            invariant
                self.wf(),
                i <= entries@.len(),
                forall|j: int|
                    0 <= j < i ==> !entry_covers(#[trigger] texts(entries@)[j], self.name()),
            decreases entries@.len() - i,
        {
            if self.covered_by(entries[i].as_slice()) {
                assert(entry_covers(texts(entries@)[i as int], self.name()));
                return true;
            }
            i += 1;
        }
        false
    }
}

fn read_hosts(entries: &Vec<Vec<char>>) -> (r: Option<(Vec<Vec<char>>, Vec<Vec<char>>)>)
    ensures
        match r {
            Some((hosts, not_hosts)) => listed_hosts(texts(entries@)) == Some(
                (texts(hosts@), texts(not_hosts@)),
            ),
            None => listed_hosts(texts(entries@)) is None,
        },
{
    let ghost all = texts(entries@);
    let mut hosts: Vec<Vec<char>> = Vec::new();
    let mut not_hosts: Vec<Vec<char>> = Vec::new();
    let mut i: usize = 0;
    assert(texts(hosts@) =~= Seq::<Seq<char>>::empty());
    while i < entries.len()
        invariant
            i <= entries@.len(),
            all == texts(entries@),
            listed_hosts(all.take(i as int)) == Some((texts(hosts@), texts(not_hosts@))),
        decreases entries@.len() - i,
    {
        let entry = trimmed(entries[i].as_slice());
        let negated = entry.len() > 0 && entry[0] == '~';
        let name = if negated {
            slice_subrange(entry, 1, entry.len())
        } else {
            entry
        };
        let ghost hosts_before = texts(hosts@);
        let ghost not_hosts_before = texts(not_hosts@);
        proof {
            assert(negated ==> name@ =~= entry@.skip(1));
            assert(all.take(i + 1).drop_last() =~= all.take(i as int));
            assert(all.take(i + 1).last() == entries@[i as int]@);
        }
        if name.len() > 0 {
            let host = match to_ascii_form(name) {
                Some(host) => host,
                None => {
                    proof {
                        lemma_listed_hosts_prefix(all, i + 1);
                    }
                    return None;
                },
            };
            if negated {
                not_hosts.push(host);
                assert(texts(not_hosts@) =~= not_hosts_before.push(host@));
            } else {
                hosts.push(host);
                assert(texts(hosts@) =~= hosts_before.push(host@));
            }
        }
        i += 1;
    }
    assert(all.take(i as int) =~= all);
    Some((hosts, not_hosts))
}

/// A list with a bad entry at its start stays bad.
proof fn lemma_listed_hosts_prefix(entries: Seq<Seq<char>>, n: int)
    requires
        0 <= n <= entries.len(),
        listed_hosts(entries.take(n)) is None,
    ensures
        listed_hosts(entries) is None,
    decreases entries.len(),
{
    if n == entries.len() {
        assert(entries.take(n) =~= entries);
    } else {
        assert(entries.drop_last().take(n) =~= entries.take(n));
        lemma_listed_hosts_prefix(entries.drop_last(), n);
    }
}

/// The text behind the sharps: a script call, a style, or a plain selector.
struct Body {
    script: bool,
    style: Option<String>,
    selector: String,
}

impl Body {
    spec fn action(self) -> CosmeticAction {
        match self.style {
            Some(style) => CosmeticAction::Style(style@),
            None => if self.script {
                CosmeticAction::Script
            } else {
                CosmeticAction::Hide
            },
        }
    }

    fn parse(s: &[char]) -> (r: Body)
        ensures
            parse_action(s@) == (r.action(), r.selector@),
    {
        proof {
            reveal_strlit("+js(");
            reveal_strlit(")");
            reveal_strlit(":style(");
        }
        let closed = ends_with(s, ")");
        assert(closed ==> s@.subrange(s@.len() - 1, s@.len() as int)[0] == ')');
        if starts_with(s, "+js(") && closed {
            assert(s@.subrange(0, 4)[3] == '(');
            let args = slice_subrange(s, 4, s.len() - 1);
            return Body { script: true, style: None, selector: string_of(args) };
        }
        let mark = chars_of(":style(");
        match search(s, mark.as_slice(), 0) {
            Some(i) => {
                if closed {
                    proof {
                        let found = s@.subrange(i as int, i + 7);
                        assert(found[6] == '(');
                    }
                    let n: usize = s.len();
                    let style = slice_subrange(s, i + 7, n - 1);
                    let selector = slice_subrange(s, 0, i);
                    assert(selector@ =~= s@.take(i as int));
                    return Body {
                        script: false,
                        style: Some(string_of(style)),
                        selector: string_of(selector),
                    };
                }
            },
            None => {},
        }
        Body { script: false, style: None, selector: string_of(s) }
    }
}

impl CosmeticFilter {
    /// The cosmetic rule that a line stands for.
    pub fn parse(line: &str) -> (r: Result<CosmeticFilter, CosmeticFilterError>)
        ensures
            match r {
                Ok(filter) => parse_cosmetic(line@) == Ok::<CosmeticRule, CosmeticFilterError>(
                    filter@,
                ),
                Err(e) => parse_cosmetic(line@) == Err::<CosmeticRule, CosmeticFilterError>(e),
            },
    {
        proof {
            reveal_strlit("@#");
            reveal_strlit("#");
        }
        let all = chars_of(line);
        let n: usize = all.len();
        let sharp: usize = match find(all.as_slice(), '#') {
            Some(sharp) => sharp,
            None => {
                return Err(CosmeticFilterError::MissingSharp);
            },
        };
        let rest = slice_subrange(all.as_slice(), sharp + 1, n);
        assert(rest@ =~= line@.skip(sharp + 1));
        let unhide = starts_with(rest, "@#");
        if !unhide && !starts_with(rest, "#") {
            return Err(CosmeticFilterError::UnsupportedSyntax);
        }
        let after = if unhide {
            slice_subrange(rest, 2, rest.len())
        } else {
            slice_subrange(rest, 1, rest.len())
        };
        assert(unhide ==> after@ =~= rest@.skip(2));
        assert(!unhide ==> after@ =~= rest@.skip(1));
        let text = trimmed(after);
        let body = Body::parse(text);
        let before = slice_subrange(all.as_slice(), 0, sharp);
        assert(before@ =~= line@.take(sharp as int));
        match read_hosts(&split_at(before, ',')) {
            None => Err(CosmeticFilterError::InvalidHostname),
            Some((hosts, not_hosts)) => {
                if starts_with(text, "^") {
                    Err(CosmeticFilterError::UnsupportedSyntax)
                } else if body.selector.as_str().is_empty() {
                    Err(CosmeticFilterError::EmptySelector)
                } else if hosts.len() == 0 && unhide {
                    Err(CosmeticFilterError::GenericUnhide)
                } else if hosts.len() == 0 && body.style.is_some() {
                    Err(CosmeticFilterError::GenericStyle)
                } else if hosts.len() == 0 && body.script {
                    assert(body.action() is Script);
                    Err(CosmeticFilterError::GenericScriptInject)
                } else {
                    Ok(
                        CosmeticFilter {
                            unhide,
                            script: body.script,
                            style: body.style,
                            selector: body.selector,
                            hosts,
                            not_hosts,
                        },
                    )
                }
            },
        }
    }

    /// A copy of the rule.
    pub fn copy(&self) -> (r: CosmeticFilter)
        ensures
            r@ == self@,
    {
        CosmeticFilter {
            unhide: self.unhide,
            script: self.script,
            style: self.style.clone(),
            selector: self.selector.clone(),
            hosts: copy_texts(&self.hosts),
            not_hosts: copy_texts(&self.not_hosts),
        }
    }

    /// Whether the rule hides elements on every host.
    pub fn generic(&self) -> (r: bool)
        ensures
            r == self@.is_generic(),
    {
        !self.unhide && !self.script && self.style.is_none() && self.hosts.len() == 0
    }

    /// Whether the rule performs its action on the host.
    pub fn acts(&self, host: &HostKey) -> (r: bool)
        requires
            host.wf(),
        ensures
            r == self@.acts_on(host.name()),
    {
        if self.unhide {
            host.covered_by_any(&self.not_hosts)
        } else {
            host.covered_by_any(&self.hosts)
        }
    }

    /// Whether the rule takes its action back on the host.
    pub fn takes_back(&self, host: &HostKey) -> (r: bool)
        requires
            host.wf(),
        ensures
            r == self@.takes_back_on(host.name()),
    {
        if self.unhide {
            host.covered_by_any(&self.hosts)
        } else {
            host.covered_by_any(&self.not_hosts)
        }
    }
}

/// The name that a selector needs an element to have.
pub fn find_selector_key(selector: &str, mark: char) -> (r: Option<String>)
    ensures
        opt_text(r) == selector_key(selector@, mark),
{
    let chars = chars_of(selector);
    let s = chars.as_slice();
    if s.len() == 0 || s[0] != mark || find(s, ',').is_some() || find(s, '\\').is_some() {
        return None;
    }
    let rest = slice_subrange(s, 1, s.len());
    assert(rest@ =~= selector@.skip(1));
    let mut i: usize = 0;
    assert(rest@.skip(0) =~= rest@);
    while i < rest.len() && name_char(rest[i])
        invariant
            i <= rest@.len(),
            name_len(rest@) == i + name_len(rest@.skip(i as int)),
        decreases rest@.len() - i,
    {
        assert(rest@.skip(i as int)[0] == rest@[i as int]);
        assert(rest@.skip(i as int).drop_first() =~= rest@.skip(i + 1));
        i += 1;
    }
    proof {
        if i < rest@.len() {
            assert(rest@.skip(i as int)[0] == rest@[i as int]);
        }
    }
    if i == 0 {
        return None;
    }
    let key = slice_subrange(rest, 0, i);
    assert(key@ =~= selector@.subrange(1, 1 + i));
    Some(string_of(key))
}

fn name_char(c: char) -> (r: bool)
    ensures
        r == is_name_char(c),
{
    ('a' <= c && c <= 'z') || ('A' <= c && c <= 'Z') || ('0' <= c && c <= '9') || c == '_' || c
        == '-' || c >= '\u{80}'
}

} // verus!

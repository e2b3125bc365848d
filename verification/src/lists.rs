//! Lists of rules in their text form.

use vstd::prelude::*;
use vstd::slice::slice_subrange;

use crate::filters::cosmetic::{
    cosmetic_rules, parse_cosmetic, CosmeticFilter, CosmeticFilterError, CosmeticRule,
};
use crate::filters::network::{rules, NetworkFilter, NetworkRule};
use crate::filters::network_parser::{host_rule, parse_rule, NetworkFilterError};
use crate::text::{
    chars_of, find, find_text, is_space, is_white, lemma_trim_start, reads, search, starts_with, string_of,
    strings, texts, trim, trim_start, trimmed,
};

verus! {

/// The syntax that a list is written in.
#[derive(Clone, Copy, Debug, PartialEq, Eq, Structural)]
pub enum FilterFormat {
    /// Rules in the syntax of ad blocking lists.
    Standard,
    /// Lines of a hosts file: a host name, with or without an address before it.
    Hosts,
}

impl Default for FilterFormat {
    fn default() -> (r: FilterFormat)
        ensures
            r == FilterFormat::Standard,
    {
        FilterFormat::Standard
    }
}

/// How lines are read.
#[derive(Clone, Copy, Debug, PartialEq, Eq, Structural)]
pub struct ParseOptions {
    pub format: FilterFormat,
}

impl Default for ParseOptions {
    fn default() -> (r: ParseOptions)
        ensures
            r.format == FilterFormat::Standard,
    {
        ParseOptions { format: FilterFormat::Standard }
    }
}

/// What a line in the standard syntax holds.
#[derive(Clone, Copy, Debug, PartialEq, Eq, Structural)]
pub enum FilterType {
    Network,
    Cosmetic,
    NotSupported,
}

/// Why a line is no rule.
#[derive(Clone, Copy, Debug, PartialEq, Eq, Structural)]
pub enum FilterParseError {
    Network(NetworkFilterError),
    Cosmetic(CosmeticFilterError),
    Unsupported,
    Empty,
}

/// A rule of either sort.
pub enum Rule {
    Network(NetworkRule),
    Cosmetic(CosmeticRule),
}

/// What a trimmed line holds, in the standard syntax. Comments, list headers and
/// the extensions of other blockers hold no rule.
pub open spec fn filter_type_of(s: Seq<char>) -> FilterType {
    if s.len() <= 1 || s[0] == '!' || (s[0] == '#' && is_space(s[1]))
        || "[Adblock"@.is_prefix_of(s) {
        FilterType::NotSupported
    } else if s[0] == '|' || "@@|"@.is_prefix_of(s) {
        FilterType::Network
    } else if find_text(s, "$$"@) is Some {
        FilterType::NotSupported
    } else {
        match s.index_of_first('#') {
            None => FilterType::Network,
            Some(sharp) => {
                let rest = s.skip(sharp + 1);
                if "#"@.is_prefix_of(rest) || "@#"@.is_prefix_of(rest) {
                    FilterType::Cosmetic
                } else if "?#"@.is_prefix_of(rest) || "@?#"@.is_prefix_of(rest)
                    || "$#"@.is_prefix_of(rest) || "@$#"@.is_prefix_of(rest)
                    || "%#"@.is_prefix_of(rest) || "@%#"@.is_prefix_of(rest) {
                    FilterType::NotSupported
                } else {
                    FilterType::Network
                }
            },
        }
    }
}

/// How many characters of `s` come before its first white space.
pub open spec fn word_len(s: Seq<char>) -> int
    decreases s.len(),
{
    if s.len() == 0 || is_space(s[0]) {
        0
    } else {
        1 + word_len(s.drop_first())
    }
}

/// The first word of a text lies in it.
pub proof fn lemma_word_len(s: Seq<char>)
    ensures
        0 <= word_len(s) <= s.len(),
        s.len() > 0 && !is_space(s[0]) ==> word_len(s) > 0,
    decreases s.len(),
{
    if s.len() > 0 {
        lemma_word_len(s.drop_first());
    }
}

/// The pieces of `s` between runs of white space.
pub open spec fn words(s: Seq<char>) -> Seq<Seq<char>>
    decreases s.len(),
{
    let t = trim_start(s);
    if t.len() == 0 {
        Seq::empty()
    } else {
        proof {
            lemma_trim_start(s);
            lemma_word_len(t);
        }
        seq![t.take(word_len(t))] + words(t.skip(word_len(t)))
    }
}

/// The names by which hosts files speak of the machine itself.
pub open spec fn is_local_name(name: Seq<char>) -> bool {
    ||| name == "0.0.0.0"@
    ||| name == "127.0.0.1"@
    ||| name == "255.255.255.255"@
    ||| name == "broadcasthost"@
    ||| name == "localhost"@
    ||| name == "localhost.localdomain"@
    ||| name == "local"@
    ||| name == "ip6-localhost"@
    ||| name == "ip6-loopback"@
    ||| name == "ip6-localnet"@
    ||| name == "ip6-mcastprefix"@
    ||| name == "ip6-allnodes"@
    ||| name == "ip6-allrouters"@
    ||| name == "ip6-allhosts"@
    ||| name == "::1"@
    ||| name == "fe80::1%lo0"@
}

/// The host name that a line of a hosts file lists: its only word before a `#`,
/// or the second of two, unless it names the machine itself.
pub open spec fn hosts_entry(s: Seq<char>) -> Option<Seq<char>> {
    let text = match s.index_of_first('#') {
        Some(i) => s.take(i),
        None => s,
    };
    let fields = words(text);
    if s.len() > 0 && s[0] == '!' {
        None
    } else if fields.len() == 0 || fields.len() > 2 || is_local_name(fields.last()) {
        None
    } else {
        Some(fields.last())
    }
}

/// The rule that a line stands for.
#[verifier::opaque]
pub open spec fn parse_line(line: Seq<char>, debug: bool, format: FilterFormat) -> Result<
    Rule,
    FilterParseError,
> {
    let s = trim(line);
    if s.len() == 0 {
        Err(FilterParseError::Empty)
    } else if format == FilterFormat::Hosts {
        match hosts_entry(s) {
            None => Err(FilterParseError::Unsupported),
            Some(host) => match host_rule(host, debug) {
                Ok(rule) => Ok(Rule::Network(rule)),
                Err(e) => Err(FilterParseError::Network(e)),
            },
        }
    } else {
        match filter_type_of(s) {
            FilterType::Network => match parse_rule(s, debug) {
                Ok(rule) => Ok(Rule::Network(rule)),
                Err(e) => Err(FilterParseError::Network(e)),
            },
            FilterType::Cosmetic => match parse_cosmetic(s) {
                Ok(rule) => Ok(Rule::Cosmetic(rule)),
                Err(e) => Err(FilterParseError::Cosmetic(e)),
            },
            FilterType::NotSupported => Err(FilterParseError::Unsupported),
        }
    }
}

/// A rule of either sort.
pub enum ParsedFilter {
    Network(NetworkFilter),
    Cosmetic(CosmeticFilter),
}

impl View for ParsedFilter {
    type V = Rule;

    open spec fn view(&self) -> Rule {
        match self {
            ParsedFilter::Network(f) => Rule::Network(f@),
            ParsedFilter::Cosmetic(f) => Rule::Cosmetic(f@),
        }
    }
}

fn detect_filter_type(s: &[char]) -> (r: FilterType)
    ensures
        r == filter_type_of(s@),
{
    if s.len() <= 1 || s[0] == '!' || (s[0] == '#' && is_white(s[1])) || starts_with(s, "[Adblock") {
        return FilterType::NotSupported;
    }
    if s[0] == '|' || starts_with(s, "@@|") {
        return FilterType::Network;
    }
    let html = chars_of("$$");
    if search(s, html.as_slice(), 0).is_some() {
        return FilterType::NotSupported;
    }
    let n: usize = s.len();
    match find(s, '#') {
        None => FilterType::Network,
        Some(sharp) => {
            let rest = slice_subrange(s, sharp + 1, n);
            assert(rest@ =~= s@.skip(sharp + 1));
            if starts_with(rest, "#") || starts_with(rest, "@#") {
                FilterType::Cosmetic
            } else if starts_with(rest, "?#") || starts_with(rest, "@?#") || starts_with(rest, "$#")
                || starts_with(rest, "@$#") || starts_with(rest, "%#") || starts_with(rest, "@%#") {
                FilterType::NotSupported
            } else {
                FilterType::Network
            }
        },
    }
}

fn split_words(s: &[char]) -> (r: Vec<Vec<char>>)
    ensures
        texts(r@) == words(s@),
{
    let mut r: Vec<Vec<char>> = Vec::new();
    let mut i: usize = 0;
    assert(s@.skip(0) =~= s@);
    assert(texts(r@) + words(s@) =~= words(s@));
    loop
        invariant
            i <= s@.len(),
            texts(r@) + words(s@.skip(i as int)) == words(s@),
        decreases s@.len() - i,
    {
        let ghost start = i;
        let ghost rest = s@.skip(i as int);
        while i < s.len() && is_white(s[i])
            invariant
                start <= i <= s@.len(),
                rest == s@.skip(start as int),
                trim_start(rest) == trim_start(s@.skip(i as int)),
            decreases s@.len() - i,
        {
            assert(s@.skip(i as int).drop_first() =~= s@.skip(i + 1));
            i += 1;
        }
        let ghost t = s@.skip(i as int);
        assert(trim_start(rest) == t);
        if i == s.len() {
            assert(texts(r@) + words(rest) =~= texts(r@));
            return r;
        }
        let from: usize = i;
        while i < s.len() && !is_white(s[i])
            invariant
                from <= i <= s@.len(),
                t == s@.skip(from as int),
                word_len(t) == (i - from) + word_len(s@.skip(i as int)),
            decreases s@.len() - i,
        {
            assert(s@.skip(i as int).drop_first() =~= s@.skip(i + 1));
            i += 1;
        }
        proof {
            if i < s@.len() {
                assert(s@.skip(i as int)[0] == s@[i as int]);
            }
            assert(word_len(t) == i - from);
        }
        let word = slice_subrange(s, from, i);
        let ghost before = texts(r@);
        r.push(vstd::slice::slice_to_vec(word));
        proof {
            lemma_word_len(t);
            assert(word@ =~= t.take(word_len(t)));
            assert(t.skip(word_len(t)) =~= s@.skip(i as int));
            assert(texts(r@) =~= before.push(word@));
            assert(before + (seq![word@] + words(s@.skip(i as int))) =~= before.push(word@)
                + words(s@.skip(i as int)));
        }
    }
}

fn local_name(name: &[char]) -> (r: bool)
    ensures
        r == is_local_name(name@),
{
    reads(name, "0.0.0.0") || reads(name, "127.0.0.1") || reads(name, "255.255.255.255") || reads(
        name,
        "broadcasthost",
    ) || reads(name, "localhost") || reads(name, "localhost.localdomain") || reads(name, "local")
        || reads(name, "ip6-localhost") || reads(name, "ip6-loopback") || reads(
        name,
        "ip6-localnet",
    ) || reads(name, "ip6-mcastprefix") || reads(name, "ip6-allnodes") || reads(
        name,
        "ip6-allrouters",
    ) || reads(name, "ip6-allhosts") || reads(name, "::1") || reads(name, "fe80::1%lo0")
}

fn find_hosts_entry(s: &[char]) -> (r: Option<Vec<char>>)
    ensures
        match r {
            Some(host) => hosts_entry(s@) == Some(host@),
            None => hosts_entry(s@) is None,
        },
{
    if s.len() > 0 && s[0] == '!' {
        return None;
    }
    let text = match find(s, '#') {
        Some(i) => slice_subrange(s, 0, i),
        None => s,
    };
    proof {
        match s@.index_of_first('#') {
            Some(i) => {
                assert(text@ =~= s@.take(i));
            },
            None => {},
        }
    }
    let mut fields = split_words(text);
    let ghost all = texts(fields@);
    if fields.len() == 0 || fields.len() > 2 {
        return None;
    }
    match fields.pop() {
        None => None,
        Some(host) => {
            assert(host@ == all.last());
            if local_name(host.as_slice()) {
                None
            } else {
                Some(host)
            }
        },
    }
}

/// The rule that a line stands for.
pub fn parse_filter(line: &str, debug: bool, opts: ParseOptions) -> (r: Result<
    ParsedFilter,
    FilterParseError,
>)
    ensures
        match r {
            Ok(filter) => parse_line(line@, debug, opts.format) == Ok::<Rule, FilterParseError>(
                filter@,
            ),
            Err(e) => parse_line(line@, debug, opts.format) == Err::<Rule, FilterParseError>(e),
        },
{
    proof {
        reveal(parse_line);
    }
    let all = chars_of(line);
    let s = trimmed(all.as_slice());
    if s.len() == 0 {
        return Err(FilterParseError::Empty);
    }
    match opts.format {
        FilterFormat::Hosts => match find_hosts_entry(s) {
            None => Err(FilterParseError::Unsupported),
            Some(host) => match NetworkFilter::parse_hosts_style(
                string_of(host.as_slice()).as_str(),
                debug,
            ) {
                Ok(filter) => Ok(ParsedFilter::Network(filter)),
                Err(e) => Err(FilterParseError::Network(e)),
            },
        },
        FilterFormat::Standard => {
            let text = string_of(s);
            match detect_filter_type(s) {
                FilterType::Network => match NetworkFilter::parse(text.as_str(), debug) {
                    Ok(filter) => Ok(ParsedFilter::Network(filter)),
                    Err(e) => Err(FilterParseError::Network(e)),
                },
                FilterType::Cosmetic => match CosmeticFilter::parse(text.as_str()) {
                    Ok(filter) => Ok(ParsedFilter::Cosmetic(filter)),
                    Err(e) => Err(FilterParseError::Cosmetic(e)),
                },
                FilterType::NotSupported => Err(FilterParseError::Unsupported),
            }
        },
    }
}

/// The rules of some lists.
#[verifier::ext_equal]
pub struct RuleSet {
    pub debug: bool,
    pub network: Seq<NetworkRule>,
    pub cosmetic: Seq<CosmeticRule>,
}

impl RuleSet {
    /// The set with the rule of one more line; the same set where the line holds none.
    pub open spec fn with_line(self, line: Seq<char>, format: FilterFormat) -> RuleSet {
        match parse_line(line, self.debug, format) {
            Ok(Rule::Network(rule)) => RuleSet { network: self.network.push(rule), ..self },
            Ok(Rule::Cosmetic(rule)) => RuleSet { cosmetic: self.cosmetic.push(rule), ..self },
            Err(_) => self,
        }
    }

    /// The set with the rules of more lines.
    pub open spec fn with_lines(self, lines: Seq<Seq<char>>, format: FilterFormat) -> RuleSet
        decreases lines.len(),
    {
        if lines.len() == 0 {
            self
        } else {
            self.with_lines(lines.drop_last(), format).with_line(lines.last(), format)
        }
    }

    /// The set without any rule.
    pub open spec fn empty(debug: bool) -> RuleSet {
        RuleSet { debug, network: Seq::empty(), cosmetic: Seq::empty() }
    }
}

/// The rules of some lists. Rules of several sources, in several formats, can be
/// put together in it.
#[derive(Debug)]
pub struct FilterSet {
    pub debug: bool,
    pub network_filters: Vec<NetworkFilter>,
    pub cosmetic_filters: Vec<CosmeticFilter>,
}

impl View for FilterSet {
    type V = RuleSet;

    open spec fn view(&self) -> RuleSet {
        RuleSet {
            debug: self.debug,
            network: rules(self.network_filters@),
            cosmetic: cosmetic_rules(self.cosmetic_filters@),
        }
    }
}

impl FilterSet {
    /// A set without any rule. With `debug`, network rules keep their lines.
    pub fn new(debug: bool) -> (r: FilterSet)
        ensures
            r@ == RuleSet::empty(debug),
    {
        let r = FilterSet {
            debug,
            network_filters: Vec::new(),
            cosmetic_filters: Vec::new(),
        };
        assert(r@ =~= RuleSet::empty(debug));
        r
    }

    /// Adds the rule of a line.
    pub fn add_filter(&mut self, filter: &str, opts: ParseOptions) -> (r: Result<
        (),
        FilterParseError,
    >)
        ensures
            final(self)@ == old(self)@.with_line(filter@, opts.format),
            match r {
                Ok(_) => parse_line(filter@, old(self)@.debug, opts.format) is Ok,
                Err(e) => parse_line(filter@, old(self)@.debug, opts.format) == Err::<
                    Rule,
                    FilterParseError,
                >(e),
            },
    {
        match parse_filter(filter, self.debug, opts) {
            Ok(ParsedFilter::Network(rule)) => {
                self.network_filters.push(rule);
                assert(self@ =~= old(self)@.with_line(filter@, opts.format));
                Ok(())
            },
            Ok(ParsedFilter::Cosmetic(rule)) => {
                self.cosmetic_filters.push(rule);
                assert(self@ =~= old(self)@.with_line(filter@, opts.format));
                Ok(())
            },
            Err(e) => Err(e),
        }
    }

    /// Adds the rules of some lines. A line that holds no rule is passed over.
    pub fn add_filters(&mut self, filters: &[String], opts: ParseOptions)
        ensures
            final(self)@ == old(self)@.with_lines(strings(filters@), opts.format),
    {
        let ghost all = strings(filters@);
        let mut i: usize = 0;
        while i < filters.len()
            invariant
                i <= filters@.len(),
                all == strings(filters@),
                self@ == old(self)@.with_lines(all.take(i as int), opts.format),
            decreases filters@.len() - i,
        {
            assert(all.take(i + 1).drop_last() =~= all.take(i as int));
            assert(all.take(i + 1).last() == filters@[i as int]@);
            let _ = self.add_filter(filters[i].as_str(), opts);
            i += 1;
        }
        assert(all.take(i as int) =~= all);
    }
}

} // verus!

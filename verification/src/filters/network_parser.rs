//! The text form of network rules.
//!
//! A rule is a pattern, `@@` before it where it makes an exception, and after
//! the last `$` a list of options.

use vstd::prelude::*;
use vstd::slice::{slice_subrange, slice_to_vec};

use crate::filters::network::{FilterMask, KindSet, NetworkFilter, NetworkRule};
use crate::filters::pattern::{is_host_name, is_separator, names_host, separates};
use crate::request::RequestType;
use crate::text::{
    chars_of, ends_with, extend, find, lower, opt_text, reads, rfind, split, split_at,
    starts_with, string_of, texts, to_lower, trim, trimmed,
};
use crate::url_parser::{ascii_form, host_name, parse_host, to_ascii_form};

verus! {

/// Why a line is no network rule.
#[derive(Clone, Copy, Debug, PartialEq, Eq, Structural)]
pub enum NetworkFilterError {
    NegatedBadFilter,
    NegatedImportant,
    NegatedMatchCase,
    NegatedTag,
    NegatedRedirection,
    NegatedCsp,
    NegatedGenericHide,
    NegatedDocument,
    NegatedAll,
    EmptyRedirection,
    UnrecognisedOption,
    GenericHideWithoutException,
    InvalidHostname,
}

/// What the options of a rule have said so far.
#[verifier::ext_equal]
pub struct OptionsModel {
    pub mask: FilterMask,
    /// The kinds of request that options name, and those that they rule out.
    pub listed: KindSet,
    pub dropped: KindSet,
    pub domains: Seq<Seq<char>>,
    pub not_domains: Seq<Seq<char>>,
    pub redirect: Option<Seq<char>>,
    pub csp: Option<Seq<char>>,
    pub tag: Option<Seq<char>>,
}

/// The options of a rule that says nothing of them.
pub open spec fn default_mask() -> FilterMask {
    FilterMask {
        kinds: KindSet::uniform(false, false),
        http: true,
        https: true,
        third_party: true,
        first_party: true,
        important: false,
        match_case: false,
        left_anchor: false,
        right_anchor: false,
        hostname_anchor: false,
        regex: false,
        exception: false,
        csp: false,
        generic_hide: false,
        bad_filter: false,
        redirect_only: false,
    }
}

/// No options.
pub open spec fn no_options() -> OptionsModel {
    OptionsModel {
        mask: default_mask(),
        listed: KindSet::uniform(false, false),
        dropped: KindSet::uniform(false, false),
        domains: Seq::empty(),
        not_domains: Seq::empty(),
        redirect: None,
        csp: None,
        tag: None,
    }
}

/// The kind of request that an option names.
pub open spec fn option_kind(name: Seq<char>) -> Option<RequestType> {
    if name == "image"@ {
        Some(RequestType::Image)
    } else if name == "media"@ {
        Some(RequestType::Media)
    } else if name == "object"@ || name == "object-subrequest"@ {
        Some(RequestType::Object)
    } else if name == "other"@ {
        Some(RequestType::Other)
    } else if name == "ping"@ || name == "beacon"@ {
        Some(RequestType::Ping)
    } else if name == "script"@ {
        Some(RequestType::Script)
    } else if name == "stylesheet"@ || name == "css"@ {
        Some(RequestType::Stylesheet)
    } else if name == "subdocument"@ || name == "frame"@ {
        Some(RequestType::Subdocument)
    } else if name == "xmlhttprequest"@ || name == "xhr"@ {
        Some(RequestType::Xmlhttprequest)
    } else if name == "websocket"@ {
        Some(RequestType::Websocket)
    } else if name == "font"@ {
        Some(RequestType::Font)
    } else {
        None
    }
}

/// The domain that an entry of a domain option asks for.
pub open spec fn wanted_domain(entry: Seq<char>) -> Option<Seq<char>> {
    if entry.len() > 0 && entry[0] != '~' {
        Some(lower(entry))
    } else {
        None
    }
}

/// The domain that an entry of a domain option rules out.
pub open spec fn unwanted_domain(entry: Seq<char>) -> Option<Seq<char>> {
    if entry.len() > 1 && entry[0] == '~' {
        Some(lower(entry.skip(1)))
    } else {
        None
    }
}

/// An option taken apart: whether `~` negates it, its name, and its value.
pub open spec fn option_parts(option: Seq<char>) -> (bool, Seq<char>, Seq<char>) {
    let negated = option.len() > 0 && option[0] == '~';
    let body = if negated {
        option.skip(1)
    } else {
        option
    };
    match body.index_of_first('=') {
        Some(i) => (negated, body.take(i), body.skip(i + 1)),
        None => (negated, body, Seq::empty()),
    }
}

/// What an option that is either on or off makes of the mask; none where the
/// name is of no such option.
pub open spec fn apply_flag(mask: FilterMask, negated: bool, name: Seq<char>) -> Option<
    Result<FilterMask, NetworkFilterError>,
> {
    if name == "badfilter"@ {
        Some(
            if negated {
                Err(NetworkFilterError::NegatedBadFilter)
            } else {
                Ok(FilterMask { bad_filter: true, ..mask })
            },
        )
    } else if name == "important"@ {
        Some(
            if negated {
                Err(NetworkFilterError::NegatedImportant)
            } else {
                Ok(FilterMask { important: true, ..mask })
            },
        )
    } else if name == "match-case"@ {
        Some(
            if negated {
                Err(NetworkFilterError::NegatedMatchCase)
            } else {
                Ok(FilterMask { match_case: true, ..mask })
            },
        )
    } else if name == "third-party"@ || name == "3p"@ {
        Some(
            Ok(
                if negated {
                    FilterMask { third_party: false, ..mask }
                } else {
                    FilterMask { first_party: false, ..mask }
                },
            ),
        )
    } else if name == "first-party"@ || name == "1p"@ {
        Some(
            Ok(
                if negated {
                    FilterMask { first_party: false, ..mask }
                } else {
                    FilterMask { third_party: false, ..mask }
                },
            ),
        )
    } else if name == "generichide"@ || name == "ghide"@ {
        Some(
            if negated {
                Err(NetworkFilterError::NegatedGenericHide)
            } else {
                Ok(FilterMask { generic_hide: true, ..mask })
            },
        )
    } else {
        None
    }
}

/// What an option about the kinds of request says.
pub open spec fn apply_kind(so_far: OptionsModel, negated: bool, name: Seq<char>) -> Result<
    OptionsModel,
    NetworkFilterError,
> {
    if name == "document"@ || name == "doc"@ {
        if negated {
            Err(NetworkFilterError::NegatedDocument)
        } else {
            Ok(OptionsModel { listed: so_far.listed.with(RequestType::Document), ..so_far })
        }
    } else if name == "all"@ {
        if negated {
            Err(NetworkFilterError::NegatedAll)
        } else {
            Ok(OptionsModel { listed: KindSet::uniform(true, true), ..so_far })
        }
    } else {
        match option_kind(name) {
            Some(kind) => if negated {
                Ok(OptionsModel { dropped: so_far.dropped.with(kind), ..so_far })
            } else {
                Ok(OptionsModel { listed: so_far.listed.with(kind), ..so_far })
            },
            None => Err(NetworkFilterError::UnrecognisedOption),
        }
    }
}

/// What one more option says.
pub open spec fn apply_option(so_far: OptionsModel, option: Seq<char>) -> Result<
    OptionsModel,
    NetworkFilterError,
> {
    let (negated, name, value) = option_parts(option);
    apply_named(so_far, negated, name, value)
}

/// What one more option says, taken apart. A policy is for documents and
/// subdocuments.
pub open spec fn apply_named(
    so_far: OptionsModel,
    negated: bool,
    name: Seq<char>,
    value: Seq<char>,
) -> Result<OptionsModel, NetworkFilterError> {
    if name == "domain"@ || name == "from"@ {
        let entries = split(value, '|');
        Ok(
            OptionsModel {
                domains: so_far.domains + entries.filter_map(|e: Seq<char>| wanted_domain(e)),
                not_domains: so_far.not_domains + entries.filter_map(
                    |e: Seq<char>| unwanted_domain(e),
                ),
                ..so_far
            },
        )
    } else if name == "tag"@ {
        if negated {
            Err(NetworkFilterError::NegatedTag)
        } else {
            Ok(OptionsModel { tag: Some(value), ..so_far })
        }
    } else if name == "redirect"@ || name == "redirect-rule"@ {
        if negated {
            Err(NetworkFilterError::NegatedRedirection)
        } else if value.len() == 0 {
            Err(NetworkFilterError::EmptyRedirection)
        } else {
            Ok(
                OptionsModel {
                    mask: FilterMask { redirect_only: name == "redirect-rule"@, ..so_far.mask },
                    redirect: Some(value),
                    ..so_far
                },
            )
        }
    } else if name == "csp"@ {
        if negated {
            Err(NetworkFilterError::NegatedCsp)
        } else {
            Ok(
                OptionsModel {
                    mask: FilterMask { csp: true, ..so_far.mask },
                    listed: so_far.listed.with(RequestType::Document).with(
                        RequestType::Subdocument,
                    ),
                    csp: if value.len() > 0 {
                        Some(value)
                    } else {
                        None
                    },
                    ..so_far
                },
            )
        }
    } else {
        match apply_flag(so_far.mask, negated, name) {
            Some(Ok(mask)) => Ok(OptionsModel { mask, ..so_far }),
            Some(Err(e)) => Err(e),
            None => apply_kind(so_far, negated, name),
        }
    }
}

/// What a list of options says, from the left; the first error ends it.
pub open spec fn apply_options(so_far: OptionsModel, options: Seq<Seq<char>>) -> Result<
    OptionsModel,
    NetworkFilterError,
>
    decreases options.len(),
{
    if options.len() == 0 {
        Ok(so_far)
    } else {
        match apply_option(so_far, options[0]) {
            Ok(next) => apply_options(next, options.drop_first()),
            Err(e) => Err(e),
        }
    }
}

/// The text is a regular expression between slashes.
pub open spec fn is_slashed(s: Seq<char>) -> bool {
    s.len() > 2 && s[0] == '/' && s.last() == '/'
}

/// Where the options of a rule start, behind their `$`; none where it has none.
pub open spec fn options_start(s: Seq<char>) -> Option<int> {
    if is_slashed(s) {
        None
    } else {
        match s.index_of_last('$') {
            Some(i) => Some(i + 1),
            None => None,
        }
    }
}

/// How many characters the host name takes at the start of a pattern that is
/// anchored at the host name.
pub open spec fn host_part_len(s: Seq<char>) -> int
    decreases s.len(),
{
    if s.len() == 0 || s[0] == '*' || is_separator(s[0]) {
        0
    } else {
        1 + host_part_len(s.drop_first())
    }
}

/// A pattern in the letter case in which it is matched.
pub open spec fn cased(s: Seq<char>, match_case: bool) -> Seq<char> {
    if match_case {
        s
    } else {
        lower(s)
    }
}

/// A pattern that is anchored at the host name: the host name in it is in lower
/// case and in its ASCII form.
pub open spec fn hosted_pattern(s: Seq<char>, match_case: bool) -> Option<Seq<char>> {
    let n = host_part_len(s);
    let host = s.take(n);
    match ascii_form(host) {
        Some(name) => Some(name + cased(s.skip(n), match_case)),
        None => None,
    }
}

/// A pattern taken out of its anchors, with the mask that records them.
pub open spec fn parse_pattern(s: Seq<char>, mask: FilterMask) -> Option<(Seq<char>, FilterMask)> {
    if is_slashed(s) {
        Some((s.subrange(1, s.len() - 1), FilterMask { regex: true, ..mask }))
    } else {
        let at_host = "||"@.is_prefix_of(s);
        let at_start = !at_host && "|"@.is_prefix_of(s);
        let rest = if at_host {
            s.skip(2)
        } else if at_start {
            s.skip(1)
        } else {
            s
        };
        let at_end = "|"@.is_suffix_of(rest);
        let body = if at_end {
            rest.drop_last()
        } else {
            rest
        };
        let anchored = FilterMask {
            hostname_anchor: at_host,
            left_anchor: at_start,
            right_anchor: at_end,
            ..mask
        };
        if at_host {
            match hosted_pattern(body, mask.match_case) {
                Some(pattern) => Some((pattern, anchored)),
                None => None,
            }
        } else {
            Some((cased(body, mask.match_case), anchored))
        }
    }
}

/// A pattern that names a host and nothing under it.
pub open spec fn is_plain_host(pattern: Seq<char>, mask: FilterMask) -> bool {
    &&& mask.hostname_anchor
    &&& pattern.len() > 1
    &&& pattern.last() == '^'
    &&& names_host(pattern.drop_last())
}

/// The kinds of request that a rule applies to: those its options name, or
/// without any every kind but documents; less those they rule out. A rule for a
/// whole host without such options applies to documents too.
pub open spec fn kinds_of(listed: KindSet, dropped: KindSet, plain_host: bool) -> KindSet {
    let none = KindSet::uniform(false, false);
    if listed == none {
        KindSet::uniform(true, plain_host && dropped == none).minus(dropped)
    } else {
        listed.minus(dropped)
    }
}

/// The line that a rule keeps.
pub open spec fn kept_line(line: Seq<char>, debug: bool) -> Option<Seq<char>> {
    if debug {
        Some(line)
    } else {
        None
    }
}

/// The rule with the given options and the pattern that a text stands for.
pub open spec fn rule_with(
    options: OptionsModel,
    exception: bool,
    pattern_text: Seq<char>,
    raw_line: Option<Seq<char>>,
) -> Result<NetworkRule, NetworkFilterError> {
    if options.mask.generic_hide && !exception {
        Err(NetworkFilterError::GenericHideWithoutException)
    } else {
        match parse_pattern(pattern_text, FilterMask { exception, ..options.mask }) {
            None => Err(NetworkFilterError::InvalidHostname),
            Some((pattern, mask)) => Ok(
                NetworkRule {
                    mask: FilterMask {
                        kinds: kinds_of(
                            options.listed,
                            options.dropped,
                            is_plain_host(pattern, mask),
                        ),
                        ..mask
                    },
                    patterns: seq![pattern],
                    domains: options.domains,
                    not_domains: options.not_domains,
                    redirect: options.redirect,
                    csp: options.csp,
                    tag: options.tag,
                    raw_line,
                },
            ),
        }
    }
}

/// The network rule that a line stands for. White space at its ends counts for
/// nothing.
pub open spec fn parse_rule(text: Seq<char>, debug: bool) -> Result<
    NetworkRule,
    NetworkFilterError,
> {
    let line = trim(text);
    let exception = "@@"@.is_prefix_of(line);
    let s = if exception {
        line.skip(2)
    } else {
        line
    };
    match options_start(s) {
        Some(i) => match apply_options(no_options(), split(s.skip(i), ',')) {
            Ok(options) => rule_with(options, exception, s.take(i - 1), kept_line(line, debug)),
            Err(e) => Err(e),
        },
        None => rule_with(no_options(), exception, s, kept_line(line, debug)),
    }
}

/// The rule that blocks a host and all of its pages.
pub open spec fn host_rule(hostname: Seq<char>, debug: bool) -> Result<
    NetworkRule,
    NetworkFilterError,
> {
    match host_name(hostname) {
        None => Err(NetworkFilterError::InvalidHostname),
        Some(host) => Ok(
            NetworkRule {
                mask: FilterMask {
                    kinds: KindSet::uniform(true, true),
                    hostname_anchor: true,
                    ..default_mask()
                },
                patterns: seq![host + "^"@],
                domains: Seq::empty(),
                not_domains: Seq::empty(),
                redirect: None,
                csp: None,
                tag: None,
                raw_line: kept_line(hostname, debug),
            },
        ),
    }
}

/// What the options of a rule have said so far.
struct Options {
    mask: FilterMask,
    listed: KindSet,
    dropped: KindSet,
    domains: Vec<Vec<char>>,
    not_domains: Vec<Vec<char>>,
    redirect: Option<String>,
    csp: Option<String>,
    tag: Option<String>,
}

impl View for Options {
    type V = OptionsModel;

    closed spec fn view(&self) -> OptionsModel {
        OptionsModel {
            mask: self.mask,
            listed: self.listed,
            dropped: self.dropped,
            domains: texts(self.domains@),
            not_domains: texts(self.not_domains@),
            redirect: opt_text(self.redirect),
            csp: opt_text(self.csp),
            tag: opt_text(self.tag),
        }
    }
}

fn start_mask() -> (r: FilterMask)
    ensures
        r == default_mask(),
{
    FilterMask {
        kinds: KindSet::all_alike(false, false),
        http: true,
        https: true,
        third_party: true,
        first_party: true,
        important: false,
        match_case: false,
        left_anchor: false,
        right_anchor: false,
        hostname_anchor: false,
        regex: false,
        exception: false,
        csp: false,
        generic_hide: false,
        bad_filter: false,
        redirect_only: false,
    }
}

fn kind_of_option(name: &[char]) -> (r: Option<RequestType>)
    ensures
        r == option_kind(name@),
{
    if reads(name, "image") {
        Some(RequestType::Image)
    } else if reads(name, "media") {
        Some(RequestType::Media)
    } else if reads(name, "object") || reads(name, "object-subrequest") {
        Some(RequestType::Object)
    } else if reads(name, "other") {
        Some(RequestType::Other)
    } else if reads(name, "ping") || reads(name, "beacon") {
        Some(RequestType::Ping)
    } else if reads(name, "script") {
        Some(RequestType::Script)
    } else if reads(name, "stylesheet") || reads(name, "css") {
        Some(RequestType::Stylesheet)
    } else if reads(name, "subdocument") || reads(name, "frame") {
        Some(RequestType::Subdocument)
    } else if reads(name, "xmlhttprequest") || reads(name, "xhr") {
        Some(RequestType::Xmlhttprequest)
    } else if reads(name, "websocket") {
        Some(RequestType::Websocket)
    } else if reads(name, "font") {
        Some(RequestType::Font)
    } else {
        None
    }
}

fn flag_option(mask: FilterMask, negated: bool, name: &[char]) -> (r: Option<
    Result<FilterMask, NetworkFilterError>,
>)
    ensures
        r == apply_flag(mask, negated, name@),
{
    if reads(name, "badfilter") {
        Some(
            if negated {
                Err(NetworkFilterError::NegatedBadFilter)
            } else {
                Ok(FilterMask { bad_filter: true, ..mask })
            },
        )
    } else if reads(name, "important") {
        Some(
            if negated {
                Err(NetworkFilterError::NegatedImportant)
            } else {
                Ok(FilterMask { important: true, ..mask })
            },
        )
    } else if reads(name, "match-case") {
        Some(
            if negated {
                Err(NetworkFilterError::NegatedMatchCase)
            } else {
                Ok(FilterMask { match_case: true, ..mask })
            },
        )
    } else if reads(name, "third-party") || reads(name, "3p") {
        Some(
            Ok(
                if negated {
                    FilterMask { third_party: false, ..mask }
                } else {
                    FilterMask { first_party: false, ..mask }
                },
            ),
        )
    } else if reads(name, "first-party") || reads(name, "1p") {
        Some(
            Ok(
                if negated {
                    FilterMask { first_party: false, ..mask }
                } else {
                    FilterMask { third_party: false, ..mask }
                },
            ),
        )
    } else if reads(name, "generichide") || reads(name, "ghide") {
        Some(
            if negated {
                Err(NetworkFilterError::NegatedGenericHide)
            } else {
                Ok(FilterMask { generic_hide: true, ..mask })
            },
        )
    } else {
        None
    }
}

/// Adds the domains of a domain option to those wanted and those ruled out.
fn add_domains(wanted: &mut Vec<Vec<char>>, unwanted: &mut Vec<Vec<char>>, value: &[char])
    ensures
        texts(final(wanted)@) == texts(old(wanted)@) + split(value@, '|').filter_map(
            |e: Seq<char>| wanted_domain(e),
        ),
        texts(final(unwanted)@) == texts(old(unwanted)@) + split(value@, '|').filter_map(
            |e: Seq<char>| unwanted_domain(e),
        ),
{
    let entries = split_at(value, '|');
    let ghost w = |e: Seq<char>| wanted_domain(e);
    let ghost u = |e: Seq<char>| unwanted_domain(e);
    let ghost all = texts(entries@);
    let mut i: usize = 0;
    assert(all.take(0) =~= Seq::<Seq<char>>::empty());
    assert(texts(wanted@) + all.take(0).filter_map(w) =~= texts(wanted@));
    assert(texts(unwanted@) + all.take(0).filter_map(u) =~= texts(unwanted@));
    while i < entries.len()
        invariant
            i <= entries@.len(),
            all == texts(entries@),
            w == (|e: Seq<char>| wanted_domain(e)),
            u == (|e: Seq<char>| unwanted_domain(e)),
            texts(wanted@) == texts(old(wanted)@) + all.take(i as int).filter_map(w),
            texts(unwanted@) == texts(old(unwanted)@) + all.take(i as int).filter_map(u),
        decreases entries@.len() - i,
    {
        let entry = entries[i].as_slice();
        let ghost w_before = texts(wanted@);
        let ghost u_before = texts(unwanted@);
        assert(all[i as int] == entry@);
        assert(all.take(i + 1).drop_last() =~= all.take(i as int));
        assert(all.take(i + 1).last() == entry@);
        if entry.len() > 0 {
            if entry[0] != '~' {
                let domain = to_lower(entry);
                wanted.push(domain);
                assert(texts(wanted@) =~= w_before.push(domain@));
            } else if entry.len() > 1 {
                let rest = slice_subrange(entry, 1, entry.len());
                assert(rest@ =~= entry@.skip(1));
                let domain = to_lower(rest);
                unwanted.push(domain);
                assert(texts(unwanted@) =~= u_before.push(domain@));
            }
        }
        i += 1;
        proof {
            match w(entry@) {
                Some(d) => {
                    assert(all.take(i as int).filter_map(w) == all.take(i - 1).filter_map(w)
                        + seq![d]);
                    assert(texts(wanted@) =~= texts(old(wanted)@) + all.take(i as int).filter_map(
                        w,
                    ));
                },
                None => {},
            }
            match u(entry@) {
                Some(d) => {
                    assert(all.take(i as int).filter_map(u) == all.take(i - 1).filter_map(u)
                        + seq![d]);
                    assert(texts(unwanted@) =~= texts(old(unwanted)@) + all.take(
                        i as int,
                    ).filter_map(u));
                },
                None => {},
            }
        }
    }
    assert(all.take(i as int) =~= all);
}

impl Options {
    fn new() -> (r: Options)
        ensures
            r@ == no_options(),
    {
        let r = Options {
            mask: start_mask(),
            listed: KindSet::all_alike(false, false),
            dropped: KindSet::all_alike(false, false),
            domains: Vec::new(),
            not_domains: Vec::new(),
            redirect: None,
            csp: None,
            tag: None,
        };
        assert(r@ =~= no_options());
        r
    }

    /// Takes in an option about the kinds of request.
    fn apply_kind(self, negated: bool, name: &[char]) -> (r: Result<Options, NetworkFilterError>)
        ensures
            match r {
                Ok(next) => apply_kind(self@, negated, name@) == Ok::<
                    OptionsModel,
                    NetworkFilterError,
                >(next@),
                Err(e) => apply_kind(self@, negated, name@) == Err::<
                    OptionsModel,
                    NetworkFilterError,
                >(e),
            },
    {
        let mut next = self;
        if reads(name, "document") || reads(name, "doc") {
            if negated {
                return Err(NetworkFilterError::NegatedDocument);
            }
            next.listed = next.listed.plus(RequestType::Document);
        } else if reads(name, "all") {
            if negated {
                return Err(NetworkFilterError::NegatedAll);
            }
            next.listed = KindSet::all_alike(true, true);
        } else {
            match kind_of_option(name) {
                Some(kind) => if negated {
                    next.dropped = next.dropped.plus(kind);
                } else {
                    next.listed = next.listed.plus(kind);
                },
                None => {
                    return Err(NetworkFilterError::UnrecognisedOption);
                },
            }
        }
        Ok(next)
    }

    /// Takes in one more option.
    fn apply(self, option: &[char]) -> (r: Result<Options, NetworkFilterError>)
        ensures
            match r {
                Ok(next) => apply_option(self@, option@) == Ok::<OptionsModel, NetworkFilterError>(
                    next@,
                ),
                Err(e) => apply_option(self@, option@) == Err::<OptionsModel, NetworkFilterError>(
                    e,
                ),
            },
    {
        let negated = option.len() > 0 && option[0] == '~';
        let body = if negated {
            slice_subrange(option, 1, option.len())
        } else {
            option
        };
        assert(negated ==> body@ =~= option@.skip(1));
        let n: usize = body.len();
        let (name, value) = match find(body, '=') {
            Some(i) => (slice_subrange(body, 0, i), slice_subrange(body, i + 1, n)),
            None => (body, slice_subrange(body, n, n)),
        };
        proof {
            match body@.index_of_first('=') {
                Some(i) => {
                    assert(name@ =~= body@.take(i));
                    assert(value@ =~= body@.skip(i + 1));
                },
                None => {
                    assert(value@ =~= Seq::<char>::empty());
                },
            }
            assert(option_parts(option@) == (negated, name@, value@));
        }
        self.apply_named(negated, name, value)
    }

    fn apply_named(self, negated: bool, name: &[char], value: &[char]) -> (r: Result<
        Options,
        NetworkFilterError,
    >)
        ensures
            match r {
                Ok(next) => apply_named(self@, negated, name@, value@) == Ok::<
                    OptionsModel,
                    NetworkFilterError,
                >(next@),
                Err(e) => apply_named(self@, negated, name@, value@) == Err::<
                    OptionsModel,
                    NetworkFilterError,
                >(e),
            },
    {
        if reads(name, "domain") || reads(name, "from") {
            let mut next = self;
            add_domains(&mut next.domains, &mut next.not_domains, value);
            Ok(next)
        } else if reads(name, "tag") {
            if negated {
                Err(NetworkFilterError::NegatedTag)
            } else {
                Ok(Options { tag: Some(string_of(value)), ..self })
            }
        } else if reads(name, "redirect") || reads(name, "redirect-rule") {
            if negated {
                Err(NetworkFilterError::NegatedRedirection)
            } else if value.len() == 0 {
                Err(NetworkFilterError::EmptyRedirection)
            } else {
                let redirect_only = reads(name, "redirect-rule");
                Ok(
                    Options {
                        mask: FilterMask { redirect_only, ..self.mask },
                        redirect: Some(string_of(value)),
                        ..self
                    },
                )
            }
        } else if reads(name, "csp") {
            if negated {
                Err(NetworkFilterError::NegatedCsp)
            } else {
                let csp = if value.len() > 0 {
                    Some(string_of(value))
                } else {
                    None
                };
                let listed = self.listed.plus(RequestType::Document).plus(RequestType::Subdocument);
                Ok(Options { mask: FilterMask { csp: true, ..self.mask }, listed, csp, ..self })
            }
        } else {
            match flag_option(self.mask, negated, name) {
                Some(Ok(mask)) => Ok(Options { mask, ..self }),
                Some(Err(e)) => Err(e),
                None => self.apply_kind(negated, name),
            }
        }
    }

    /// The options that a text lists.
    fn parse(text: &[char]) -> (r: Result<Options, NetworkFilterError>)
        ensures
            match r {
                Ok(options) => apply_options(no_options(), split(text@, ',')) == Ok::<
                    OptionsModel,
                    NetworkFilterError,
                >(options@),
                Err(e) => apply_options(no_options(), split(text@, ',')) == Err::<
                    OptionsModel,
                    NetworkFilterError,
                >(e),
            },
    {
        let list = split_at(text, ',');
        let ghost all = texts(list@);
        let mut options = Options::new();
        let mut i: usize = 0;
        assert(all.skip(0) =~= all);
        while i < list.len()
            invariant
                i <= list@.len(),
                all == texts(list@),
                all == split(text@, ','),
                apply_options(no_options(), all) == apply_options(options@, all.skip(i as int)),
            decreases list@.len() - i,
        {
            assert(all.skip(i as int)[0] == list@[i as int]@);
            assert(all.skip(i as int).drop_first() =~= all.skip(i + 1));
            match options.apply(list[i].as_slice()) {
                Ok(next) => {
                    options = next;
                },
                Err(e) => {
                    return Err(e);
                },
            }
            i += 1;
        }
        Ok(options)
    }
}

fn slashed(s: &[char]) -> (r: bool)
    ensures
        r == is_slashed(s@),
{
    s.len() > 2 && s[0] == '/' && s[s.len() - 1] == '/'
}

fn find_host_part_end(s: &[char]) -> (r: usize)
    ensures
        r == host_part_len(s@),
        r <= s@.len(),
{
    let mut i: usize = 0;
    assert(s@.skip(0) =~= s@);
    while i < s.len()
        invariant
            i <= s@.len(),
            host_part_len(s@) == i + host_part_len(s@.skip(i as int)),
        decreases s@.len() - i,
    {
        assert(s@.skip(i as int)[0] == s@[i as int]);
        if s[i] == '*' || separates(s[i]) {
            return i;
        }
        assert(s@.skip(i as int).drop_first() =~= s@.skip(i + 1));
        i += 1;
    }
    i
}

fn in_case(s: &[char], match_case: bool) -> (r: Vec<char>)
    ensures
        r@ == cased(s@, match_case),
{
    if match_case {
        slice_to_vec(s)
    } else {
        to_lower(s)
    }
}

fn make_hosted_pattern(s: &[char], match_case: bool) -> (r: Option<Vec<char>>)
    ensures
        match r {
            Some(pattern) => hosted_pattern(s@, match_case) == Some(pattern@),
            None => hosted_pattern(s@, match_case) is None,
        },
{
    let n = find_host_part_end(s);
    let host = slice_subrange(s, 0, n);
    let rest = slice_subrange(s, n, s.len());
    assert(host@ =~= s@.take(n as int));
    assert(rest@ =~= s@.skip(n as int));
    let mut pattern = match to_ascii_form(host) {
        Some(name) => name,
        None => {
            return None;
        },
    };
    extend(&mut pattern, in_case(rest, match_case).as_slice());
    Some(pattern)
}

fn make_pattern(s: &[char], mask: FilterMask) -> (r: Option<(Vec<char>, FilterMask)>)
    ensures
        match r {
            Some((pattern, anchored)) => parse_pattern(s@, mask) == Some((pattern@, anchored)),
            None => parse_pattern(s@, mask) is None,
        },
{
    if slashed(s) {
        let pattern = slice_to_vec(slice_subrange(s, 1, s.len() - 1));
        return Some((pattern, FilterMask { regex: true, ..mask }));
    }
    proof {
        reveal_strlit("||");
        reveal_strlit("|");
    }
    let at_host = starts_with(s, "||");
    let at_start = !at_host && starts_with(s, "|");
    let rest = if at_host {
        slice_subrange(s, 2, s.len())
    } else if at_start {
        slice_subrange(s, 1, s.len())
    } else {
        s
    };
    let at_end = ends_with(rest, "|");
    let body = if at_end {
        slice_subrange(rest, 0, rest.len() - 1)
    } else {
        rest
    };
    proof {
        if at_host {
            assert(rest@ =~= s@.skip(2));
        } else if at_start {
            assert(rest@ =~= s@.skip(1));
        }
        if at_end {
            assert(body@ =~= rest@.drop_last());
        }
    }
    let anchored = FilterMask {
        hostname_anchor: at_host,
        left_anchor: at_start,
        right_anchor: at_end,
        ..mask
    };
    if at_host {
        match make_hosted_pattern(body, mask.match_case) {
            Some(pattern) => Some((pattern, anchored)),
            None => None,
        }
    } else {
        Some((in_case(body, mask.match_case), anchored))
    }
}

fn plain_host(pattern: &[char], mask: FilterMask) -> (r: bool)
    ensures
        r == is_plain_host(pattern@, mask),
{
    if !mask.hostname_anchor || pattern.len() <= 1 || pattern[pattern.len() - 1] != '^' {
        return false;
    }
    let host = slice_subrange(pattern, 0, pattern.len() - 1);
    assert(host@ =~= pattern@.drop_last());
    is_host_name(host)
}

fn make_kinds(listed: KindSet, dropped: KindSet, plain_host: bool) -> (r: KindSet)
    ensures
        r == kinds_of(listed, dropped, plain_host),
{
    let none = KindSet::all_alike(false, false);
    if listed == none {
        KindSet::all_alike(true, plain_host && dropped == none).without(dropped)
    } else {
        listed.without(dropped)
    }
}

/// The rule with the given options and the pattern that a text stands for.
fn make_rule(options: Options, exception: bool, pattern_text: &[char], raw_line: Option<String>) -> (r:
    Result<NetworkFilter, NetworkFilterError>)
    ensures
        match r {
            Ok(filter) => rule_with(options@, exception, pattern_text@, opt_text(raw_line)) == Ok::<
                NetworkRule,
                NetworkFilterError,
            >(filter@),
            Err(e) => rule_with(options@, exception, pattern_text@, opt_text(raw_line)) == Err::<
                NetworkRule,
                NetworkFilterError,
            >(e),
        },
{
    if options.mask.generic_hide && !exception {
        return Err(NetworkFilterError::GenericHideWithoutException);
    }
    match make_pattern(pattern_text, FilterMask { exception, ..options.mask }) {
        None => Err(NetworkFilterError::InvalidHostname),
        Some((pattern, mask)) => {
            let kinds = make_kinds(
                options.listed,
                options.dropped,
                plain_host(pattern.as_slice(), mask),
            );
            let mut patterns: Vec<Vec<char>> = Vec::new();
            patterns.push(pattern);
            assert(texts(patterns@) =~= seq![pattern@]);
            Ok(
                NetworkFilter {
                    mask: FilterMask { kinds, ..mask },
                    patterns,
                    domains: options.domains,
                    not_domains: options.not_domains,
                    redirect: options.redirect,
                    csp: options.csp,
                    tag: options.tag,
                    raw_line,
                },
            )
        },
    }
}

impl NetworkFilter {
    /// The network rule that a line stands for. With `debug`, it keeps the line.
    pub fn parse(text: &str, debug: bool) -> (r: Result<NetworkFilter, NetworkFilterError>)
        ensures
            match r {
                Ok(filter) => parse_rule(text@, debug) == Ok::<NetworkRule, NetworkFilterError>(
                    filter@,
                ),
                Err(e) => parse_rule(text@, debug) == Err::<NetworkRule, NetworkFilterError>(e),
            },
    {
        proof {
            reveal_strlit("@@");
        }
        let all = chars_of(text);
        let line = trimmed(all.as_slice());
        let exception = starts_with(line, "@@");
        let s = if exception {
            slice_subrange(line, 2, line.len())
        } else {
            line
        };
        assert(exception ==> s@ =~= line@.skip(2));
        let n: usize = s.len();
        let raw_line = if debug {
            Some(string_of(line))
        } else {
            None
        };
        let start: Option<usize> = if slashed(s) {
            None
        } else {
            rfind(s, '$')
        };
        match start {
            Some(i) => {
                let text = slice_subrange(s, i + 1, n);
                let pattern_text = slice_subrange(s, 0, i);
                assert(text@ =~= s@.skip(i + 1));
                assert(pattern_text@ =~= s@.take(i as int));
                match Options::parse(text) {
                    Ok(options) => make_rule(options, exception, pattern_text, raw_line),
                    Err(e) => Err(e),
                }
            },
            None => make_rule(Options::new(), exception, s, raw_line),
        }
    }

    /// The rule that blocks a host and all of its pages.
    pub fn parse_hosts_style(hostname: &str, debug: bool) -> (r: Result<
        NetworkFilter,
        NetworkFilterError,
    >)
        ensures
            match r {
                Ok(filter) => host_rule(hostname@, debug) == Ok::<NetworkRule, NetworkFilterError>(
                    filter@,
                ),
                Err(e) => host_rule(hostname@, debug) == Err::<NetworkRule, NetworkFilterError>(e),
            },
    {
        match parse_host(chars_of(hostname).as_slice()) {
            None => Err(NetworkFilterError::InvalidHostname),
            Some(host) => {
                let mut pattern = host;
                extend(&mut pattern, chars_of("^").as_slice());
                let mut patterns: Vec<Vec<char>> = Vec::new();
                patterns.push(pattern);
                assert(texts(patterns@) =~= seq![pattern@]);
                let filter = NetworkFilter {
                    mask: FilterMask {
                        kinds: KindSet::all_alike(true, true),
                        hostname_anchor: true,
                        ..start_mask()
                    },
                    patterns,
                    domains: Vec::new(),
                    not_domains: Vec::new(),
                    redirect: None,
                    csp: None,
                    tag: None,
                    raw_line: if debug {
                        Some(hostname.to_owned())
                    } else {
                        None
                    },
                };
                assert(filter@ =~= host_rule(hostname@, debug)->Ok_0);
                Ok(filter)
            },
        }
    }
}

} // verus!

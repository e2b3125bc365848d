//! Compression of rule lists: neighbouring rules that differ in their patterns
//! alone become one rule with all of the patterns.

use vstd::prelude::*;
use vstd::slice::slice_to_vec;

use crate::filters::network::{pattern_matches, rules, NetworkFilter, NetworkRule};
use crate::request::RequestModel;
use crate::text::texts;

verus! {

/// The lines of two rules that become one.
pub open spec fn joined_lines(a: Option<Seq<char>>, b: Option<Seq<char>>) -> Option<Seq<char>> {
    match (a, b) {
        (Some(a), Some(b)) => Some(a + " <+> "@ + b),
        (Some(a), None) => Some(a),
        (None, b) => b,
    }
}

/// Two rules as one, with the patterns of both.
pub open spec fn joined(a: NetworkRule, b: NetworkRule) -> NetworkRule {
    NetworkRule {
        patterns: a.patterns + b.patterns,
        raw_line: joined_lines(a.raw_line, b.raw_line),
        ..a
    }
}

/// A list with one more rule, which joins the last where it can.
pub open spec fn fuse_one(list: Seq<NetworkRule>, rule: NetworkRule) -> Seq<NetworkRule> {
    if list.len() > 0 && list.last().frame() == rule.frame() {
        list.drop_last().push(joined(list.last(), rule))
    } else {
        list.push(rule)
    }
}

/// A list in which neighbours that differ in their patterns alone are one rule.
pub open spec fn fuse(list: Seq<NetworkRule>) -> Seq<NetworkRule>
    decreases list.len(),
{
    if list.len() == 0 {
        Seq::empty()
    } else {
        fuse_one(fuse(list.drop_last()), list.last())
    }
}

/// A list as it is stored: compressed, or as it is.
pub open spec fn stored(list: Seq<NetworkRule>, optimize: bool) -> Seq<NetworkRule> {
    if optimize {
        fuse(list)
    } else {
        list
    }
}

/// A rule of the list is in force and applies to the request.
pub open spec fn any_match(
    list: Seq<NetworkRule>,
    request: RequestModel,
    tags: Set<Seq<char>>,
) -> bool {
    exists|i: int|
        0 <= i < list.len() && (#[trigger] list[i]).in_force(tags) && list[i].matches(request)
}

/// Whether a stored rule is a rule, alone or together with others.
pub open spec fn held_by(stored: NetworkRule, rule: NetworkRule) -> bool {
    &&& stored.frame() == rule.frame()
    &&& forall|j: int|
        0 <= j < rule.patterns.len() ==> stored.patterns.contains(#[trigger] rule.patterns[j])
}

/// The list holds a rule: one with the same options and all of its patterns.
pub open spec fn holds(list: Seq<NetworkRule>, rule: NetworkRule) -> bool {
    exists|i: int| 0 <= i < list.len() && held_by(#[trigger] list[i], rule)
}

/// Rules with one frame admit the same requests and are in force together; two
/// as one apply where either does.
pub proof fn lemma_joined(a: NetworkRule, b: NetworkRule, request: RequestModel, tags: Set<Seq<char>>)
    requires
        a.frame() == b.frame(),
    ensures
        joined(a, b).matches(request) == (a.matches(request) || b.matches(request)),
        joined(a, b).in_force(tags) == a.in_force(tags),
        a.in_force(tags) == b.in_force(tags),
        joined(a, b).frame() == a.frame(),
{
    let j = joined(a, b);
    assert(a.frame().mask == b.frame().mask);
    assert(a.frame().domains == b.frame().domains);
    assert(a.frame().not_domains == b.frame().not_domains);
    assert(a.frame().tag == b.frame().tag);
    assert(a.admits(request) == b.admits(request));
    assert(j.admits(request) == a.admits(request));
    if a.matches(request) {
        let i = choose|i: int|
            0 <= i < a.patterns.len() && pattern_matches(a.mask, #[trigger] a.patterns[i], request);
        assert(j.patterns[i] == a.patterns[i]);
    }
    if b.matches(request) {
        let i = choose|i: int|
            0 <= i < b.patterns.len() && pattern_matches(b.mask, #[trigger] b.patterns[i], request);
        assert(j.patterns[a.patterns.len() + i] == b.patterns[i]);
    }
    if j.matches(request) {
        let i = choose|i: int|
            0 <= i < j.patterns.len() && pattern_matches(j.mask, #[trigger] j.patterns[i], request);
        if i < a.patterns.len() {
            assert(a.patterns[i] == j.patterns[i]);
        } else {
            assert(b.patterns[i - a.patterns.len()] == j.patterns[i]);
        }
    }
}

/// One more rule adds what it applies to, whether or not it joins the last.
proof fn lemma_fuse_one_match(
    list: Seq<NetworkRule>,
    rule: NetworkRule,
    request: RequestModel,
    tags: Set<Seq<char>>,
)
    ensures
        any_match(fuse_one(list, rule), request, tags) == (any_match(list, request, tags) || (
        rule.in_force(tags) && rule.matches(request))),
{
    let after = fuse_one(list, rule);
    if list.len() > 0 && list.last().frame() == rule.frame() {
        let last = list.last();
        lemma_joined(last, rule, request, tags);
        let n = list.len() - 1;
        assert(after[n] == joined(last, rule));
        assert(list[n] == last);
        assert forall|i: int| 0 <= i < n implies after[i] == #[trigger] list[i] by {}
        if any_match(list, request, tags) {
            let i = choose|i: int|
                0 <= i < list.len() && (#[trigger] list[i]).in_force(tags) && list[i].matches(
                    request,
                );
            assert(after[i].in_force(tags) && after[i].matches(request));
        }
        if rule.in_force(tags) && rule.matches(request) {
            assert(after[n].in_force(tags) && after[n].matches(request));
        }
        if any_match(after, request, tags) {
            let i = choose|i: int|
                0 <= i < after.len() && (#[trigger] after[i]).in_force(tags) && after[i].matches(
                    request,
                );
            if i < n {
                assert(list[i].in_force(tags) && list[i].matches(request));
            } else {
                assert(list[n].in_force(tags));
            }
        }
    } else {
        if any_match(list, request, tags) {
            let i = choose|i: int|
                0 <= i < list.len() && (#[trigger] list[i]).in_force(tags) && list[i].matches(
                    request,
                );
            assert(after[i] == list[i]);
        }
        assert(after[list.len() as int] == rule);
        if any_match(after, request, tags) {
            let i = choose|i: int|
                0 <= i < after.len() && (#[trigger] after[i]).in_force(tags) && after[i].matches(
                    request,
                );
            if i < list.len() {
                assert(list[i] == after[i]);
            }
        }
    }
}

/// Compression changes neither for which requests nor under which tags a list
/// has a rule that applies.
pub proof fn lemma_fuse_match(list: Seq<NetworkRule>, request: RequestModel, tags: Set<Seq<char>>)
    ensures
        any_match(fuse(list), request, tags) == any_match(list, request, tags),
    decreases list.len(),
{
    if list.len() > 0 {
        let shorter = list.drop_last();
        let rule = list.last();
        lemma_fuse_match(shorter, request, tags);
        lemma_fuse_one_match(fuse(shorter), rule, request, tags);
        assert(list[list.len() - 1] == rule);
        if any_match(shorter, request, tags) {
            let i = choose|i: int|
                0 <= i < shorter.len() && (#[trigger] shorter[i]).in_force(tags)
                    && shorter[i].matches(request);
            assert(list[i] == shorter[i]);
        }
        if any_match(list, request, tags) {
            let i = choose|i: int|
                0 <= i < list.len() && (#[trigger] list[i]).in_force(tags) && list[i].matches(
                    request,
                );
            if i < list.len() - 1 {
                assert(shorter[i] == list[i]);
            }
        }
    }
}

/// Joins a rule to the last of the list, or appends it.
fn add_fused(list: &mut Vec<NetworkFilter>, filter: NetworkFilter)
    ensures
        rules(final(list)@) == fuse_one(rules(old(list)@), filter@),
{
    let n: usize = list.len();
    let joins = n > 0 && list[n - 1].same_frame(&filter);
    proof {
        if n > 0 {
            assert(rules(list@).last() == list@[n - 1]@);
        }
    }
    if joins {
        match list.pop() {
            Some(last) => {
                let merged = join_filters(last, filter);
                list.push(merged);
                assert(rules(list@) =~= fuse_one(rules(old(list)@), filter@));
            },
            None => {},
        }
    } else {
        list.push(filter);
        assert(rules(list@) =~= rules(old(list)@).push(filter@));
    }
}

/// Two rules as one.
fn join_filters(a: NetworkFilter, b: NetworkFilter) -> (r: NetworkFilter)
    ensures
        r@ == joined(a@, b@),
{
    let mut r = a;
    let mut i: usize = 0;
    assert(texts(b.patterns@).take(0) =~= Seq::<Seq<char>>::empty());
    assert(texts(r.patterns@) + texts(b.patterns@).take(0) =~= texts(r.patterns@));
    while i < b.patterns.len()
        invariant
            i <= b.patterns@.len(),
            r == (NetworkFilter { patterns: r.patterns, ..a }),
            texts(r.patterns@) == texts(a.patterns@) + texts(b.patterns@).take(i as int),
        decreases b.patterns@.len() - i,
    {
        let ghost before = texts(r.patterns@);
        let pattern = slice_to_vec(b.patterns[i].as_slice());
        r.patterns.push(pattern);
        assert(texts(r.patterns@) =~= before.push(pattern@));
        i += 1;
        assert(texts(b.patterns@).take(i as int) =~= texts(b.patterns@).take(i - 1).push(
            pattern@,
        ));
    }
    assert(texts(b.patterns@).take(i as int) =~= texts(b.patterns@));
    let line = match (&r.raw_line, &b.raw_line) {
        (Some(x), Some(y)) => Some(x.clone().concat(" <+> ").concat(y.as_str())),
        (Some(x), None) => Some(x.clone()),
        (None, Some(y)) => Some(y.clone()),
        (None, None) => None,
    };
    r.raw_line = line;
    assert(r@ =~= joined(a@, b@));
    r
}

/// A list as it is stored.
pub fn store(list: Vec<NetworkFilter>, optimize: bool) -> (r: Vec<NetworkFilter>)
    ensures
        rules(r@) == stored(rules(list@), optimize),
{
    if !optimize {
        return list;
    }
    let mut r: Vec<NetworkFilter> = Vec::new();
    let ghost all = rules(list@);
    let mut i: usize = 0;
    assert(rules(r@) =~= Seq::<NetworkRule>::empty());
    while i < list.len()
        invariant
            i <= list@.len(),
            all == rules(list@),
            rules(r@) == fuse(all.take(i as int)),
        decreases list@.len() - i,
    {
        assert(all.take(i + 1).drop_last() =~= all.take(i as int));
        assert(all.take(i + 1).last() == list@[i as int]@);
        add_fused(&mut r, list[i].copy());
        i += 1;
    }
    assert(all.take(i as int) =~= all);
    r
}

} // verus!

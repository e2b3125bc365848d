//! Facts about sequences.

use vstd::prelude::*;

verus! {

/// One more element passes a filter or not.
pub proof fn lemma_filter_take<A>(s: Seq<A>, i: int, p: spec_fn(A) -> bool)
    requires
        0 <= i < s.len(),
    ensures
        s.take(i + 1).filter(p) == if p(s[i]) {
            s.take(i).filter(p).push(s[i])
        } else {
            s.take(i).filter(p)
        },
{
    assert(s.take(i + 1) =~= s.take(i).push(s[i]));
    s.take(i).lemma_filter_push(s[i], p);
}

/// One more element passes a filter that maps or not.
pub proof fn lemma_filter_map_take<A, B>(s: Seq<A>, i: int, f: spec_fn(A) -> Option<B>)
    requires
        0 <= i < s.len(),
    ensures
        s.take(i + 1).filter_map(f) == match f(s[i]) {
            Some(b) => s.take(i).filter_map(f).push(b),
            None => s.take(i).filter_map(f),
        },
{
    assert(s.take(i + 1).drop_last() =~= s.take(i));
    assert(s.take(i + 1).last() == s[i]);
    match f(s[i]) {
        Some(b) => {
            assert(s.take(i).filter_map(f) + seq![b] =~= s.take(i).filter_map(f).push(b));
        },
        None => {},
    }
}

/// What passes two filters, one after the other, passes both at once.
pub proof fn lemma_filter_filter<A>(
    s: Seq<A>,
    p: spec_fn(A) -> bool,
    q: spec_fn(A) -> bool,
    both: spec_fn(A) -> bool,
)
    requires
        forall|x: A| #[trigger] both(x) == (p(x) && q(x)),
    ensures
        s.filter(p).filter(q) == s.filter(both),
    decreases s.len(),
{
    if s.len() == 0 {
        reveal(Seq::filter);
    } else {
        let front = s.drop_last();
        let last = s.last();
        lemma_filter_filter(front, p, q, both);
        assert(s =~= front.push(last));
        front.lemma_filter_push(last, p);
        front.lemma_filter_push(last, both);
        front.filter(p).lemma_filter_push(last, q);
        assert(both(last) == (p(last) && q(last)));
    }
}

/// A filter that a mapping does not touch passes the same elements after it.
pub proof fn lemma_map_filter<A>(s: Seq<A>, m: spec_fn(A) -> A, p: spec_fn(A) -> bool)
    requires
        forall|x: A| p(#[trigger] m(x)) == p(x),
    ensures
        s.map_values(m).filter(p) == s.filter(p).map_values(m),
    decreases s.len(),
{
    if s.len() == 0 {
        reveal(Seq::filter);
        assert(s.map_values(m).filter(p) =~= s.filter(p).map_values(m));
    } else {
        let front = s.drop_last();
        let last = s.last();
        lemma_map_filter(front, m, p);
        assert(s =~= front.push(last));
        assert(s.map_values(m) =~= front.map_values(m).push(m(last)));
        front.lemma_filter_push(last, p);
        front.map_values(m).lemma_filter_push(m(last), p);
        assert(p(m(last)) == p(last));
        assert(front.filter(p).push(last).map_values(m) =~= front.filter(p).map_values(m).push(
            m(last),
        ));
    }
}

/// What a filter passes is in the list and passes it.
pub proof fn lemma_filter_contains<A>(s: Seq<A>, p: spec_fn(A) -> bool, x: A)
    ensures
        s.filter(p).contains(x) <==> s.contains(x) && p(x),
    decreases s.len(),
{
    if s.len() == 0 {
        reveal(Seq::filter);
    } else {
        let front = s.drop_last();
        let last = s.last();
        lemma_filter_contains(front, p, x);
        assert(s =~= front.push(last));
        front.lemma_filter_push(last, p);
        lemma_contains_pushed(front, last, x);
        lemma_contains_pushed(front.filter(p), last, x);
    }
}

/// A filter that maps gives what some element of the list is mapped to.
pub proof fn lemma_filter_map_contains<A, B>(s: Seq<A>, f: spec_fn(A) -> Option<B>, y: B)
    ensures
        s.filter_map(f).contains(y) <==> exists|i: int|
            0 <= i < s.len() && f(#[trigger] s[i]) == Some(y),
    decreases s.len(),
{
    if s.len() > 0 {
        let front = s.drop_last();
        let last = s.last();
        lemma_filter_map_contains(front, f, y);
        lemma_filter_map_take(s, s.len() - 1, f);
        assert(s.take(s.len() as int) =~= s);
        assert(s.take(s.len() - 1) =~= front);
        if f(last) is Some {
            lemma_contains_pushed(front.filter_map(f), f(last)->0, y);
        }
        assert(s[s.len() - 1] == last);
        if exists|i: int| 0 <= i < front.len() && f(#[trigger] front[i]) == Some(y) {
            let i = choose|i: int| 0 <= i < front.len() && f(#[trigger] front[i]) == Some(y);
            assert(s[i] == front[i]);
        }
        if exists|i: int| 0 <= i < s.len() && f(#[trigger] s[i]) == Some(y) {
            let i = choose|i: int| 0 <= i < s.len() && f(#[trigger] s[i]) == Some(y);
            if i < front.len() {
                assert(front[i] == s[i]);
            }
        }
    }
}

/// A list with one more element holds what it held, and the element.
pub proof fn lemma_contains_pushed<A>(s: Seq<A>, last: A, x: A)
    ensures
        s.push(last).contains(x) <==> s.contains(x) || x == last,
{
    if s.contains(x) {
        let i = choose|i: int| 0 <= i < s.len() && s[i] == x;
        assert(s.push(last)[i] == x);
    }
    if x == last {
        assert(s.push(last)[s.len() as int] == x);
    }
    if s.push(last).contains(x) {
        let i = choose|i: int| 0 <= i < s.push(last).len() && s.push(last)[i] == x;
        if i < s.len() {
            assert(s[i] == x);
        }
    }
}

} // verus!

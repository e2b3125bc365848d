//! The pattern language of network rules.
//!
//! A pattern is a text in which `*` stands for any run of characters and `^`
//! for one separator character or the end of the address. Every other
//! character stands for itself.

use vstd::prelude::*;
use vstd::slice::slice_subrange;

use crate::text::same_text;

verus! {

/// The characters that `^` stands for: anything but a letter, a digit or one of
/// `_`, `-`, `.` and `%`. Characters beyond ASCII count as letters.
pub open spec fn is_separator(c: char) -> bool {
    !(('a' <= c <= 'z') || ('A' <= c <= 'Z') || ('0' <= c <= '9') || c == '_' || c == '-' || c
        == '.' || c == '%' || c >= '\u{80}')
}

/// Whether `^` stands for `c`.
pub fn separates(c: char) -> (r: bool)
    ensures
        r == is_separator(c),
{
    !(('a' <= c && c <= 'z') || ('A' <= c && c <= 'Z') || ('0' <= c && c <= '9') || c == '_' || c
        == '-' || c == '.' || c == '%' || c >= '\u{80}')
}

/// The pattern `p` covers a start of `t`; with `to_end`, it covers all of `t`.
pub open spec fn covers(p: Seq<char>, t: Seq<char>, to_end: bool) -> bool
    decreases p.len(), t.len(),
{
    if p.len() == 0 {
        to_end ==> t.len() == 0
    } else if p[0] == '*' {
        covers(p.drop_first(), t, to_end) || (t.len() > 0 && covers(p, t.drop_first(), to_end))
    } else if p[0] == '^' {
        if t.len() == 0 {
            covers(p.drop_first(), t, to_end)
        } else {
            is_separator(t[0]) && covers(p.drop_first(), t.drop_first(), to_end)
        }
    } else {
        t.len() > 0 && t[0] == p[0] && covers(p.drop_first(), t.drop_first(), to_end)
    }
}

/// The pattern `p` stands somewhere in `t`; with `to_end`, at the end of `t`.
pub open spec fn stands_in(p: Seq<char>, t: Seq<char>, to_end: bool) -> bool {
    exists|i: int| 0 <= i <= t.len() && #[trigger] covers(p, t.skip(i), to_end)
}

/// A label of the host name `host` starts at `k`.
pub open spec fn label_start(host: Seq<char>, k: int) -> bool {
    k == 0 || (0 < k < host.len() && host[k - 1] == '.')
}

/// The pattern is made of host name characters alone.
pub open spec fn names_host(p: Seq<char>) -> bool {
    forall|i: int| 0 <= i < p.len() ==> #[trigger] p[i] != '*' && !is_separator(p[i])
}

/// A host name pattern `p` stands for whole labels of `host`, from position `k`
/// on; with `to_end`, for the last ones.
pub open spec fn names_labels(p: Seq<char>, host: Seq<char>, k: int, to_end: bool) -> bool {
    &&& k + p.len() <= host.len()
    &&& host.subrange(k, k + p.len()) == p
    &&& {
        ||| k + p.len() == host.len()
        ||| !to_end && (p.len() == 0 || p.last() == '.' || host[k + p.len()] == '.')
    }
}

/// The pattern `p`, anchored at a label of the host name, covers what follows:
/// `hosted` is the host name and the rest of the address.
pub open spec fn covers_host(
    p: Seq<char>,
    host: Seq<char>,
    hosted: Seq<char>,
    to_end: bool,
) -> bool {
    exists|k: int| #[trigger]
        label_start(host, k) && {
            if names_host(p) {
                names_labels(p, host, k, to_end)
            } else {
                k <= hosted.len() && covers(p, hosted.skip(k), to_end)
            }
        }
}

/// A leading `*` lets the rest of the pattern stand anywhere.
pub proof fn lemma_wildcard(p: Seq<char>, t: Seq<char>, to_end: bool)
    requires
        p.len() > 0,
        p[0] == '*',
    ensures
        covers(p, t, to_end) == stands_in(p.drop_first(), t, to_end),
    decreases t.len(),
{
    let rest = p.drop_first();
    assert(t.skip(0) =~= t);
    assert(covers(rest, t.skip(0), to_end) == covers(rest, t, to_end));
    if t.len() > 0 {
        lemma_wildcard(p, t.drop_first(), to_end);
        if stands_in(rest, t.drop_first(), to_end) {
            let i = choose|i: int|
                0 <= i <= t.drop_first().len() && #[trigger] covers(
                    rest,
                    t.drop_first().skip(i),
                    to_end,
                );
            assert(t.drop_first().skip(i) =~= t.skip(i + 1));
            assert(covers(rest, t.skip(i + 1), to_end));
        }
        if stands_in(rest, t, to_end) {
            let i = choose|i: int| 0 <= i <= t.len() && #[trigger] covers(rest, t.skip(i), to_end);
            if i > 0 {
                assert(t.drop_first().skip(i - 1) =~= t.skip(i));
                assert(covers(rest, t.drop_first().skip(i - 1), to_end));
            }
        }
    }
}

/// A pattern stands in a text at its start or further on.
proof fn lemma_stands_in(p: Seq<char>, t: Seq<char>, to_end: bool)
    ensures
        stands_in(p, t, to_end) == (covers(p, t, to_end) || (t.len() > 0 && stands_in(
            p,
            t.skip(1),
            to_end,
        ))),
{
    assert(t.skip(0) =~= t);
    if stands_in(p, t, to_end) {
        let i = choose|i: int| 0 <= i <= t.len() && #[trigger] covers(p, t.skip(i), to_end);
        if i > 0 {
            assert(t.skip(1).skip(i - 1) =~= t.skip(i));
            assert(covers(p, t.skip(1).skip(i - 1), to_end));
        }
    }
    if covers(p, t, to_end) {
        assert(covers(p, t.skip(0), to_end));
    }
    if t.len() > 0 && stands_in(p, t.skip(1), to_end) {
        let i = choose|i: int|
            0 <= i <= t.skip(1).len() && #[trigger] covers(p, t.skip(1).skip(i), to_end);
        assert(t.skip(1).skip(i) =~= t.skip(i + 1));
        assert(covers(p, t.skip(i + 1), to_end));
    }
}

/// What a pattern with a leading `*` covers further on, it covers from the start.
proof fn lemma_absorb(p: Seq<char>, t: Seq<char>, n: int, to_end: bool)
    requires
        p.len() > 0,
        p[0] == '*',
        0 <= n <= t.len(),
        covers(p, t.skip(n), to_end),
    ensures
        covers(p, t, to_end),
    decreases n,
{
    if n == 0 {
        assert(t.skip(0) =~= t);
    } else {
        assert(t.drop_first().skip(n - 1) =~= t.skip(n));
        lemma_absorb(p, t.drop_first(), n - 1, to_end);
    }
}

/// A piece of a pattern without `*` covers as many characters as it has, or all that
/// are left.
proof fn lemma_advance(p: Seq<char>, t: Seq<char>, n: int, to_end: bool)
    requires
        0 <= n <= p.len(),
        forall|k: int| 0 <= k < n ==> p[k] != '*',
        covers(p, t, to_end),
    ensures
        covers(
            p.skip(n),
            t.skip(
                if n <= t.len() {
                    n
                } else {
                    t.len() as int
                },
            ),
            to_end,
        ),
    decreases n,
{
    assert(p.skip(0) =~= p);
    assert(t.skip(0) =~= t);
    if n > 0 {
        let rest = p.drop_first();
        assert(p[0] != '*');
        assert(rest.skip(n - 1) =~= p.skip(n));
        if t.len() == 0 {
            lemma_advance(rest, t, n - 1, to_end);
        } else {
            lemma_advance(rest, t.drop_first(), n - 1, to_end);
            if n <= t.len() {
                assert(t.drop_first().skip(n - 1) =~= t.skip(n));
            } else {
                assert(t.drop_first().skip(t.len() - 1) =~= t.skip(t.len() as int));
            }
        }
    }
}

/// A piece of a pattern that ends before a `*` need not be tried further on once it
/// has found a place: its leftmost place leaves the most to what follows.
proof fn lemma_leftmost(
    p: Seq<char>,
    t: Seq<char>,
    start: int,
    i: int,
    place: int,
    j: int,
    to_end: bool,
)
    requires
        0 <= start <= i < p.len(),
        p[i] == '*',
        forall|k: int| start <= k < i ==> p[k] != '*',
        0 <= place < t.len(),
        j == if place + (i - start) <= t.len() {
            place + (i - start)
        } else {
            t.len() as int
        },
        stands_in(p.skip(start), t.skip(place + 1), to_end),
    ensures
        covers(p.skip(i), t.skip(j), to_end),
{
    let rest = t.skip(place + 1);
    let k = choose|k: int|
        0 <= k <= rest.len() && #[trigger] covers(p.skip(start), rest.skip(k), to_end);
    let later = place + 1 + k;
    let n = i - start;
    assert(rest.skip(k) =~= t.skip(later));
    lemma_advance(p.skip(start), t.skip(later), n, to_end);
    assert(p.skip(start).skip(n) =~= p.skip(i));
    let end = if later + n <= t.len() {
        later + n
    } else {
        t.len() as int
    };
    assert(t.skip(later).skip(end - later) =~= t.skip(end));
    assert(t.skip(j).skip(end - j) =~= t.skip(end));
    lemma_absorb(p.skip(i), t.skip(j), end - j, to_end);
}

/// Whether `p` covers a start of `t` or, with `anywhere`, stands somewhere in it; with
/// `to_end`, up to its end. Each piece of the pattern between two `*` is put at its
/// leftmost place.
fn fits(p: &[char], t: &[char], anywhere: bool, to_end: bool) -> (r: bool)
    ensures
        r == if anywhere {
            stands_in(p@, t@, to_end)
        } else {
            covers(p@, t@, to_end)
        },
{
    let m: usize = p.len();
    let n: usize = t.len();
    let ghost found = if anywhere {
        stands_in(p@, t@, to_end)
    } else {
        covers(p@, t@, to_end)
    };
    let mut i: usize = 0;
    let mut j: usize = 0;
    // The current piece starts at `start` and is tried at `place`; where it is not
    // movable, there is no other place for it.
    let mut movable = anywhere;
    let mut start: usize = 0;
    let mut place: usize = 0;
    proof {
        assert(p@.skip(0) =~= p@);
        assert(t@.skip(0) =~= t@);
        lemma_stands_in(p@, t@, to_end);
    }
    loop
        invariant
            m == p@.len(),
            n == t@.len(),
            start <= i <= m,
            place <= j <= n,
            !movable ==> start == 0,
            forall|k: int| start <= k < i ==> p@[k] != '*',
            j == if place + (i - start) <= n {
                place + (i - start)
            } else {
                n as int
            },
            found == if anywhere {
                stands_in(p@, t@, to_end)
            } else {
                covers(p@, t@, to_end)
            },
            found == (covers(p@.skip(i as int), t@.skip(j as int), to_end) || (movable && place < n
                && stands_in(p@.skip(start as int), t@.skip(place + 1), to_end))),
        decreases m - start, n - place, m - i,
    {
        let ghost pi = p@.skip(i as int);
        let ghost tj = t@.skip(j as int);
        proof {
            if i < m {
                assert(pi.drop_first() =~= p@.skip(i + 1));
                assert(pi[0] == p@[i as int]);
            }
            if j < n {
                assert(tj.drop_first() =~= t@.skip(j + 1));
                assert(tj[0] == t@[j as int]);
                assert(tj.skip(1) =~= t@.skip(j + 1));
            }
        }
        if i == m {
            if !to_end || j == n {
                return true;
            }
        } else if p[i] == '*' {
            proof {
                lemma_wildcard(pi, tj, to_end);
                lemma_stands_in(pi.drop_first(), tj, to_end);
                if movable && place < n && stands_in(
                    p@.skip(start as int),
                    t@.skip(place + 1),
                    to_end,
                ) {
                    lemma_leftmost(
                        p@,
                        t@,
                        start as int,
                        i as int,
                        place as int,
                        j as int,
                        to_end,
                    );
                }
            }
            i += 1;
            movable = true;
            start = i;
            place = j;
            continue;
        } else if j == n {
            if p[i] == '^' {
                i += 1;
                continue;
            }
        } else if p[i] == '^' {
            if separates(t[j]) {
                i += 1;
                j += 1;
                continue;
            }
        } else if p[i] == t[j] {
            i += 1;
            j += 1;
            continue;
        }
        if !movable || place == n {
            return false;
        }
        place += 1;
        i = start;
        j = place;
        proof {
            let tail = t@.skip(place as int);
            lemma_stands_in(p@.skip(start as int), tail, to_end);
            if place < n {
                assert(tail.skip(1) =~= t@.skip(place + 1));
            }
        }
    }
}

/// Whether `p` covers a start (with `to_end`: all) of `t`.
pub fn is_covered(p: &[char], t: &[char], to_end: bool) -> (r: bool)
    ensures
        r == covers(p@, t@, to_end),
{
    fits(p, t, false, to_end)
}

/// Whether `p` stands somewhere in `t`; with `to_end`, at its end.
pub fn is_covered_later(p: &[char], t: &[char], to_end: bool) -> (r: bool)
    ensures
        r == stands_in(p@, t@, to_end),
{
    fits(p, t, true, to_end)
}

/// Whether the pattern is made of host name characters alone.
pub fn is_host_name(p: &[char]) -> (r: bool)
    ensures
        r == names_host(p@),
{
    let mut i: usize = 0;
    while i < p.len()
        invariant
            i <= p@.len(),
            forall|j: int| 0 <= j < i ==> #[trigger] p@[j] != '*' && !is_separator(p@[j]),
        decreases p@.len() - i,
    {
        if p[i] == '*' || separates(p[i]) {
            return false;
        }
        i += 1;
    }
    true
}

/// Whether `p` stands for whole labels of `host` from position `k` on.
fn labels_named(p: &[char], host: &[char], k: usize, to_end: bool) -> (r: bool)
    requires
        k <= host@.len(),
    ensures
        r == names_labels(p@, host@, k as int, to_end),
{
    if p.len() > host.len() - k {
        return false;
    }
    let end: usize = k + p.len();
    same_text(slice_subrange(host, k, end), p) && (end == host.len() || (!to_end && (p.len() == 0
        || p[p.len() - 1] == '.' || host[end] == '.')))
}

/// Whether `p`, anchored at a label of the host name, covers what follows.
pub fn is_host_covered(p: &[char], host: &[char], hosted: &[char], to_end: bool) -> (r: bool)
    ensures
        r == covers_host(p@, host@, hosted@, to_end),
{
    let named = is_host_name(p);
    let mut k: usize = 0;
    assert(label_start(host@, 0));
    loop
        invariant
            k == 0 || k < host@.len(),
            named == names_host(p@),
            forall|j: int|
                0 <= j < k && #[trigger] label_start(host@, j) ==> {
                    if named {
                        !names_labels(p@, host@, j, to_end)
                    } else {
                        !(j <= hosted@.len() && covers(p@, hosted@.skip(j), to_end))
                    }
                },
        decreases host@.len() - k,
    {
        if k == 0 || host[k - 1] == '.' {
            assert(label_start(host@, k as int));
            if named {
                if labels_named(p, host, k, to_end) {
                    return true;
                }
            } else if k <= hosted.len() {
                let rest = slice_subrange(hosted, k, hosted.len());
                assert(rest@ =~= hosted@.skip(k as int));
                if is_covered(p, rest, to_end) {
                    return true;
                }
            }
        }
        if host.len() == 0 || k >= host.len() - 1 {
            return false;
        }
        k += 1;
    }
}

} // verus!

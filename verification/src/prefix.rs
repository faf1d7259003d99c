//! The common prefix of a family's path-like names.
//!
//! The prefix ends at or before the first point of divergence between the
//! first name and any other, rounded down to the position just after the
//! last separator seen before the divergence (when one was seen).  A
//! single name is returned whole, and an empty list yields the empty
//! prefix.
use vstd::prelude::*;
use crate::text::seq_views;

verus! {

/// The length of the longest common prefix of `a` and `b`.
pub open spec fn lcp(a: Seq<char>, b: Seq<char>) -> int
    decreases a.len(),
{
    if a.len() == 0 || b.len() == 0 {
        0
    } else if a[0] == b[0] {
        1 + lcp(a.skip(1), b.skip(1))
    } else {
        0
    }
}

/// The longest common prefix matches on every position before it and
/// mismatches right after it unless one string ends there.
pub proof fn lemma_lcp(a: Seq<char>, b: Seq<char>)
    ensures
        0 <= lcp(a, b) <= a.len(),
        lcp(a, b) <= b.len(),
        forall|j: int| 0 <= j < lcp(a, b) ==> a[j] == b[j],
        lcp(a, b) < a.len() && lcp(a, b) < b.len() ==> a[lcp(a, b)] != b[lcp(a, b)],
    decreases a.len(),
{
    if a.len() == 0 || b.len() == 0 {
    } else if a[0] == b[0] {
        lemma_lcp(a.skip(1), b.skip(1));
        let m = lcp(a, b);
        assert(forall|j: int| 1 <= j < m ==> a[j] == a.skip(1)[j - 1]);
        assert(forall|j: int| 1 <= j < m ==> b[j] == b.skip(1)[j - 1]);
        if m < a.len() && m < b.len() {
            assert(a.skip(1)[m - 1] != b.skip(1)[m - 1]);
        }
    }
}

/// Any index with the matching/mismatching character pattern is the
/// longest common prefix length.
pub proof fn lemma_lcp_unique(a: Seq<char>, b: Seq<char>, m: int)
    requires
        0 <= m <= a.len(),
        m <= b.len(),
        forall|j: int| 0 <= j < m ==> a[j] == b[j],
        m < a.len() && m < b.len() ==> a[m] != b[m],
    ensures
        lcp(a, b) == m,
{
    lemma_lcp(a, b);
    let l = lcp(a, b);
    if l < m {
        assert(a[l] == b[l]);
    }
    if l > m {
        assert(a[m] == b[m]);
    }
}

/// The position just after the last separator strictly before `k`, or the
/// default `d` when no separator occurs there.
pub open spec fn after_last_sep(a: Seq<char>, sep: char, k: int, d: int) -> int
    decreases k,
{
    if k <= 0 {
        d
    } else if a[k - 1] == sep {
        k
    } else {
        after_last_sep(a, sep, k - 1, d)
    }
}

/// Bounds for the rounded-down cut position.
pub proof fn lemma_after_last_sep_bounds(a: Seq<char>, sep: char, k: int, d: int)
    requires
        0 <= d,
        0 <= k,
    ensures
        0 <= after_last_sep(a, sep, k, d),
        after_last_sep(a, sep, k, d) <= (if k >= d {
            k
        } else {
            d
        }),
    decreases k,
{
    if k > 0 && a[k - 1] != sep {
        lemma_after_last_sep_bounds(a, sep, k - 1, d);
    }
}

/// The cut that one entry imposes: nothing when the entry never diverges
/// from the first name within their common length, else the divergence
/// point rounded down to just after the last separator before it.
pub open spec fn entry_cut(first: Seq<char>, e: Seq<char>, sep: char) -> int {
    let m = lcp(first, e);
    if m < first.len() && m < e.len() {
        after_last_sep(first, sep, m, m)
    } else {
        first.len() as int
    }
}

/// The tightest cut over the first `n` entries.
pub open spec fn min_cut(first: Seq<char>, entries: Seq<Seq<char>>, sep: char, n: int) -> int
    decreases n,
{
    if n <= 0 {
        first.len() as int
    } else {
        let p = min_cut(first, entries, sep, n - 1);
        let c = entry_cut(first, entries[n - 1], sep);
        if c < p {
            c
        } else {
            p
        }
    }
}

/// The cut of one entry lies within the first name.
pub proof fn lemma_entry_cut_bounds(first: Seq<char>, e: Seq<char>, sep: char)
    ensures
        0 <= entry_cut(first, e, sep) <= first.len(),
{
    lemma_lcp(first, e);
    let m = lcp(first, e);
    if m < first.len() && m < e.len() {
        lemma_after_last_sep_bounds(first, sep, m, m);
    }
}

/// The tightest cut lies within the first name.
pub proof fn lemma_min_cut_bounds(first: Seq<char>, entries: Seq<Seq<char>>, sep: char, n: int)
    ensures
        0 <= min_cut(first, entries, sep, n) <= first.len(),
    decreases n,
{
    if n > 0 {
        lemma_min_cut_bounds(first, entries, sep, n - 1);
        lemma_entry_cut_bounds(first, entries[n - 1], sep);
    }
}

/// The common prefix of a list of names: empty for an empty list, the
/// whole single name for a one-element list, and otherwise the first name
/// cut at the tightest divergence point over all entries.
pub open spec fn spec_common_prefix(names: Seq<Seq<char>>, sep: char) -> Seq<char> {
    if names.len() == 0 {
        Seq::empty()
    } else if names.len() == 1 {
        names[0]
    } else {
        names[0].take(min_cut(names[0], names, sep, names.len() as int))
    }
}

/// The length of the longest common prefix of `a` and `b`.
pub fn lcp_len(a: &str, b: &str) -> (m: usize)
    ensures
        m == lcp(a@, b@),
{
    let al = a.unicode_len();
    let bl = b.unicode_len();
    let mut j: usize = 0;
    while j < al && j < bl
        invariant
            0 <= j <= al == a@.len(),
            j <= bl == b@.len(),
            forall|k: int| 0 <= k < j ==> a@[k] == b@[k],
        decreases al - j,
    {
        if a.get_char(j) != b.get_char(j) {
            proof {
                lemma_lcp_unique(a@, b@, j as int);
            }
            return j;
        }
        j = j + 1;
    }
    proof {
        lemma_lcp_unique(a@, b@, j as int);
    }
    j
}

/// The divergence point `m` rounded down to just after the last separator
/// before it, or `m` itself when no separator precedes it.
fn sep_cut(s: &str, sep: char, m: usize) -> (c: usize)
    requires
        m <= s@.len(),
    ensures
        c == after_last_sep(s@, sep, m as int, m as int),
{
    let mut j: usize = m;
    while j > 0
        invariant
            0 <= j <= m <= s@.len(),
            after_last_sep(s@, sep, m as int, m as int) == after_last_sep(
                s@,
                sep,
                j as int,
                m as int,
            ),
        decreases j,
    {
        if s.get_char(j - 1) == sep {
            return j;
        }
        j = j - 1;
    }
    m
}

/// The longest prefix of the first name ending at or before its first
/// point of divergence from any other name, rounded down to the nearest
/// preceding separator when the divergence does not fall exactly after
/// one.  A single name is returned whole; an empty list gives the empty
/// string.
#[verifier::loop_isolation(false)]
pub fn common_prefix(list: &Vec<String>, separator: char) -> (r: String)
    ensures
        r@ == spec_common_prefix(seq_views(list@), separator),
{
    let ghost views = seq_views(list@);
    if list.len() == 0 {
        let r = String::new();
        proof {
            assert(r@ =~= spec_common_prefix(views, separator));
        }
        r
    } else if list.len() == 1 {
        list[0].clone()
    } else {
        let first = &list[0];
        let fl = first.unicode_len();
        let mut rightmost: usize = fl;
        let mut t: usize = 0;
        proof {
            lemma_min_cut_bounds(first@, views, separator, list@.len() as int);
        }
        while t < list.len()
            invariant
                0 <= t <= list@.len(),
                rightmost == min_cut(first@, views, separator, t as int),
                0 <= rightmost <= fl,
            decreases list@.len() - t,
        {
            let m = lcp_len(first, list[t].as_str());
            proof {
                lemma_lcp(first@, views[t as int]);
            }
            let el = list[t].unicode_len();
            if m < fl && m < el {
                let c = sep_cut(first, separator, m);
                proof {
                    lemma_entry_cut_bounds(first@, views[t as int], separator);
                    assert(c == entry_cut(first@, views[t as int], separator));
                }
                if c < rightmost {
                    rightmost = c;
                }
            }
            t = t + 1;
        }
        let r = first.substring_char(0, rightmost).to_owned();
        proof {
            assert(r@ =~= spec_common_prefix(views, separator));
        }
        r
    }
}

/// Splits `name` into the literal prefix `p` and the rest, or reports
/// that `p` is not a literal prefix of `name`.
pub fn strip_prefix_checked(name: &str, p: &str) -> (r: Option<String>)
    ensures
        match r {
            Some(rest) => p@.len() <= name@.len() && name@.take(p@.len() as int) == p@ && rest@
                == name@.skip(p@.len() as int),
            None => !(p@.len() <= name@.len() && name@.take(p@.len() as int) == p@),
        },
{
    let nl = name.unicode_len();
    let pl = p.unicode_len();
    if pl > nl {
        return None;
    }
    let mut j: usize = 0;
    while j < pl
        invariant
            0 <= j <= pl == p@.len(),
            pl <= nl == name@.len(),
            forall|k: int| 0 <= k < j ==> name@[k] == p@[k],
        decreases pl - j,
    {
        if name.get_char(j) != p.get_char(j) {
            proof {
                assert(name@.take(p@.len() as int)[j as int] != p@[j as int]);
            }
            return None;
        }
        j = j + 1;
    }
    let rest = name.substring_char(pl, nl).to_owned();
    proof {
        assert(name@.take(p@.len() as int) =~= p@);
        assert(rest@ =~= name@.skip(p@.len() as int));
    }
    Some(rest)
}

/// Re-prepending the common prefix to a stripped name reconstructs the
/// original exactly.
pub proof fn lemma_prefix_round_trip(p: Seq<char>, name: Seq<char>)
    requires
        p.len() <= name.len(),
        name.take(p.len() as int) == p,
    ensures
        p + name.skip(p.len() as int) == name,
{
    assert(p + name.skip(p.len() as int) =~= name);
}

/// The computed prefix is always a literal prefix of the first name.
pub proof fn lemma_prefix_of_first(names: Seq<Seq<char>>, sep: char)
    requires
        names.len() >= 1,
    ensures
        spec_common_prefix(names, sep).len() <= names[0].len(),
        names[0].take(spec_common_prefix(names, sep).len() as int) == spec_common_prefix(
            names,
            sep,
        ),
    decreases names.len(),
{
    if names.len() == 1 {
        assert(names[0].take(names[0].len() as int) =~= names[0]);
    } else {
        lemma_min_cut_bounds(names[0], names, sep, names.len() as int);
        let c = min_cut(names[0], names, sep, names.len() as int);
        assert(names[0].take(c).len() == c);
        assert(names[0].take(names[0].take(c).len() as int) =~= names[0].take(c));
    }
}

/// The documented single-name edge case: one name is returned whole,
/// unstripped.
pub proof fn lemma_single_name_unstripped(names: Seq<Seq<char>>, sep: char)
    requires
        names.len() == 1,
    ensures
        spec_common_prefix(names, sep) == names[0],
{
}

} // verus!

//! Small verified helpers over strings: searching for a separator,
//! splitting a name into segments, lexicographic comparison, and reading
//! a run of decimal digits.
use vstd::prelude::*;

verus! {

/// The views of a sequence of strings.
pub open spec fn seq_views(v: Seq<String>) -> Seq<Seq<char>> {
    Seq::new(v.len(), |i: int| v[i]@)
}

/// Whether `c` is a decimal digit.
pub open spec fn is_digit(c: char) -> bool {
    48 <= c as u32 <= 57
}

/// The value of a digit character; zero for any other character.
pub open spec fn digit_of(c: char) -> nat {
    if is_digit(c) {
        (c as u32 - 48) as nat
    } else {
        0
    }
}

/// The numeric value of the digit run `s[from..to]`, most significant first.
pub open spec fn digits_val(s: Seq<char>, from: int, to: int) -> nat
    decreases to - from,
{
    if to <= from {
        0
    } else {
        digits_val(s, from, to - 1) * 10 + digit_of(s[to - 1])
    }
}

/// The index of the first occurrence of `sep` in `s`, or -1 if none.
pub open spec fn spec_find(s: Seq<char>, sep: char) -> int
    decreases s.len(),
{
    if s.len() == 0 {
        -1
    } else if s[0] == sep {
        0
    } else {
        let r = spec_find(s.skip(1), sep);
        if r == -1 {
            -1
        } else {
            r + 1
        }
    }
}

/// `spec_find` returns the first occurrence: the character there is `sep`
/// and no earlier character is.
pub proof fn lemma_find_first(s: Seq<char>, sep: char)
    ensures
        spec_find(s, sep) == -1 ==> forall|k: int| 0 <= k < s.len() ==> s[k] != sep,
        spec_find(s, sep) != -1 ==> {
            &&& 0 <= spec_find(s, sep) < s.len()
            &&& s[spec_find(s, sep)] == sep
            &&& forall|k: int| 0 <= k < spec_find(s, sep) ==> s[k] != sep
        },
    decreases s.len(),
{
    if s.len() == 0 {
    } else if s[0] == sep {
    } else {
        lemma_find_first(s.skip(1), sep);
        let r = spec_find(s.skip(1), sep);
        assert(forall|k: int| 1 <= k < s.len() ==> s[k] == s.skip(1)[k - 1]);
    }
}

/// The segments of `s` split on `sep`: the text before the first separator,
/// then the segments of what follows it.  A string without a separator is
/// one segment, so the result is never empty.
pub open spec fn spec_split(s: Seq<char>, sep: char) -> Seq<Seq<char>>
    decreases s.len(),
{
    let i = spec_find(s, sep);
    if i == -1 {
        seq![s]
    } else if 0 <= i < s.len() {
        seq![s.take(i)] + spec_split(s.skip(i + 1), sep)
    } else {
        seq![s]
    }
}

/// Strict lexicographic order on character sequences, by Unicode scalar
/// value; a proper prefix precedes the longer string.
pub open spec fn spec_str_lt(a: Seq<char>, b: Seq<char>) -> bool
    decreases a.len(),
{
    if b.len() == 0 {
        false
    } else if a.len() == 0 {
        true
    } else if (a[0] as u32) < (b[0] as u32) {
        true
    } else if (a[0] as u32) > (b[0] as u32) {
        false
    } else {
        spec_str_lt(a.skip(1), b.skip(1))
    }
}

/// The index of the first occurrence of `sep` in `s` at or after `from`.
pub fn find_from(s: &str, sep: char, from: usize) -> (r: Option<usize>)
    requires
        from <= s@.len(),
    ensures
        match r {
            Some(i) => from <= i < s@.len() && s@[i as int] == sep && forall|k: int|
                from <= k < i ==> s@[k] != sep,
            None => forall|k: int| from <= k < s@.len() ==> s@[k] != sep,
        },
{
    let n = s.unicode_len();
    let mut i: usize = from;
    while i < n
        invariant
            from <= i <= n == s@.len(),
            forall|k: int| from <= k < i ==> s@[k] != sep,
        decreases n - i,
    {
        if s.get_char(i) == sep {
            return Some(i);
        }
        i = i + 1;
    }
    None
}

/// Split `s` into its segments on the separator `sep`.
pub fn split_segments(s: &str, sep: char) -> (r: Vec<String>)
    ensures
        seq_views(r@) == spec_split(s@, sep),
    decreases s@.len(),
{
    let n = s.unicode_len();
    match find_from(s, sep, 0) {
        None => {
            proof {
                lemma_find_first(s@, sep);
                if spec_find(s@, sep) != -1 {
                    assert(s@[spec_find(s@, sep)] == sep);
                }
            }
            let mut r: Vec<String> = Vec::new();
            r.push(s.to_owned());
            proof {
                assert(seq_views(r@) =~= spec_split(s@, sep));
            }
            r
        },
        Some(i) => {
            proof {
                lemma_find_first(s@, sep);
                if spec_find(s@, sep) == -1 {
                    assert(s@[i as int] != sep);
                }
                if spec_find(s@, sep) < i {
                    assert(s@[spec_find(s@, sep)] == sep);
                }
                if spec_find(s@, sep) > i {
                    assert(s@[i as int] != sep);
                }
                assert(spec_find(s@, sep) == i);
            }
            let head = s.substring_char(0, i).to_owned();
            let rest = s.substring_char(i + 1, n);
            proof {
                assert(rest@ =~= s@.skip(i + 1));
            }
            let mut r = split_segments(rest, sep);
            r.insert(0, head);
            proof {
                assert(head@ =~= s@.take(i as int));
                assert(seq_views(r@) =~= seq![s@.take(i as int)] + spec_split(
                    s@.skip(i + 1),
                    sep,
                ));
            }
            r
        },
    }
}

/// Whether `a` lexicographically precedes `b`.
pub fn str_lt(a: &str, b: &str) -> (r: bool)
    ensures
        r == spec_str_lt(a@, b@),
{
    let an = a.unicode_len();
    let bn = b.unicode_len();
    let mut i: usize = 0;
    proof {
        assert(a@.skip(0) =~= a@);
        assert(b@.skip(0) =~= b@);
    }
    loop
        invariant
            0 <= i <= an == a@.len(),
            i <= bn == b@.len(),
            spec_str_lt(a@, b@) == spec_str_lt(a@.skip(i as int), b@.skip(i as int)),
        decreases an - i,
    {
        if i >= an {
            return if i >= bn {
                false
            } else {
                true
            };
        }
        if i >= bn {
            return false;
        }
        let ca = a.get_char(i);
        let cb = b.get_char(i);
        if ca as u32 != cb as u32 {
            proof {
                assert(a@.skip(i as int)[0] == a@[i as int]);
                assert(b@.skip(i as int)[0] == b@[i as int]);
            }
            return (ca as u32) < (cb as u32);
        }
        proof {
            assert(a@.skip(i as int)[0] == a@[i as int]);
            assert(b@.skip(i as int)[0] == b@[i as int]);
            assert(a@.skip(i as int).skip(1) =~= a@.skip(i + 1));
            assert(b@.skip(i as int).skip(1) =~= b@.skip(i + 1));
        }
        i = i + 1;
    }
}

/// Whether `a` and `b` hold the same characters.
pub fn str_eq(a: &str, b: &str) -> (r: bool)
    ensures
        r == (a@ == b@),
{
    let an = a.unicode_len();
    let bn = b.unicode_len();
    if an != bn {
        proof {
            assert(a@.len() != b@.len());
        }
        return false;
    }
    let mut i: usize = 0;
    while i < an
        invariant
            0 <= i <= an == a@.len(),
            an == b@.len(),
            forall|k: int| 0 <= k < i ==> a@[k] == b@[k],
        decreases an - i,
    {
        if a.get_char(i) != b.get_char(i) {
            return false;
        }
        i = i + 1;
    }
    proof {
        assert(a@ =~= b@);
    }
    true
}

/// Whether every character of `s[from..to]` is a decimal digit.
pub fn all_digits(s: &str, from: usize, to: usize) -> (r: bool)
    requires
        from <= to <= s@.len(),
    ensures
        r == forall|k: int| from <= k < to ==> is_digit(s@[k]),
{
    let mut i: usize = from;
    while i < to
        invariant
            from <= i <= to <= s@.len(),
            forall|k: int| from <= k < i ==> is_digit(s@[k]),
        decreases to - i,
    {
        let c = s.get_char(i);
        if !(48 <= c as u32 && c as u32 <= 57) {
            return false;
        }
        i = i + 1;
    }
    true
}

/// The concatenation of `a`, a dash, and `b`: how a pending combining
/// segment joins the segment that follows it.
pub fn join_dash(a: String, b: &str) -> (r: String)
    ensures
        r@ == a@ + seq!['-'] + b@,
{
    let r = a.concat("-").concat(b);
    proof {
        reveal_strlit("-");
        assert("-"@ =~= seq!['-']);
        assert(r@ =~= a@ + seq!['-'] + b@);
    }
    r
}

/// Reads the digit run `s[from..to]` as a number; `None` when the value
/// does not fit in `usize`.
pub fn parse_decimal(s: &str, from: usize, to: usize) -> (r: Option<usize>)
    requires
        from <= to <= s@.len(),
        forall|k: int| from <= k < to ==> is_digit(s@[k]),
    ensures
        match r {
            Some(v) => v == digits_val(s@, from as int, to as int),
            None => digits_val(s@, from as int, to as int) > usize::MAX,
        },
{
    let mut acc: usize = 0;
    let mut i: usize = from;
    while i < to
        invariant
            from <= i <= to <= s@.len(),
            forall|k: int| from <= k < to ==> is_digit(s@[k]),
            acc == digits_val(s@, from as int, i as int),
        decreases to - i,
    {
        let c = s.get_char(i);
        proof {
            assert(is_digit(s@[i as int]));
        }
        let d: usize = (c as u32 as usize) - 48;
        let next = match acc.checked_mul(10) {
            Some(m) => m.checked_add(d),
            None => None,
        };
        match next {
            Some(v) => {
                acc = v;
            },
            None => {
                proof {
                    lemma_digits_val_grows(s@, from as int, i + 1, to as int);
                }
                return None;
            },
        }
        i = i + 1;
    }
    Some(acc)
}

/// Adding digits on the right never decreases the value of a digit run.
pub proof fn lemma_digits_val_grows(s: Seq<char>, from: int, i: int, to: int)
    requires
        from <= i <= to,
    ensures
        digits_val(s, from, i) <= digits_val(s, from, to),
    decreases to - i,
{
    if i < to {
        lemma_digits_val_grows(s, from, i, to - 1);
        assert(digits_val(s, from, to - 1) <= digits_val(s, from, to - 1) * 10 + digit_of(
            s[to - 1],
        )) by (nonlinear_arith);
    }
}

} // verus!

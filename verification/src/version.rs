//! Extracting a version from a candidate name and building the preferred
//! filter for a family.
//!
//! Each family names its versions in one of three ways: a label with an
//! optional count ("al2023", where a missing count means 1), a plain
//! integer ("12"), or a dotted major.minor pair ("24.04", weighed as
//! major times one hundred plus minor).  The preferred filter keeps, per
//! architecture, exactly the candidates that carry the newest version
//! token and every required qualifier.
use vstd::prelude::*;
use crate::errors::SelectError;
use crate::filter::Filter;
use crate::candidate::{AmiDetail, DetailView, detail_views};
use crate::registry::{StringsToBitmask, RegView, wf, spec_encode_seq, spec_encode_seq_ok};
use crate::text::{is_digit, digits_val, spec_str_lt, str_lt, parse_decimal, seq_views};

verus! {

/// How a family writes versions into its candidate names.
#[derive(Clone, Copy, Debug, PartialEq, Eq, Structural)]
pub enum VersionScheme {
    /// A label of "al" or "amzn" and an optional count, then a dash; a
    /// missing count means 1.
    LabeledCount,
    /// A plain integer without leading zero, then a slash.
    PlainInteger,
    /// An integer without leading zero, a dot, exactly two digits, then a
    /// slash; weighed as major times one hundred plus minor.
    MajorMinor,
}

/// The end of the digit run starting at `from`.
pub open spec fn digits_end(s: Seq<char>, from: int) -> int
    decreases s.len() - from,
{
    if from < 0 || from >= s.len() || !is_digit(s[from]) {
        from
    } else {
        digits_end(s, from + 1)
    }
}

/// The digit run reaches exactly to its end.
pub proof fn lemma_digits_end(s: Seq<char>, from: int)
    requires
        0 <= from <= s.len(),
    ensures
        from <= digits_end(s, from) <= s.len(),
        forall|k: int| from <= k < digits_end(s, from) ==> is_digit(s[k]),
        digits_end(s, from) < s.len() ==> !is_digit(s[digits_end(s, from)]),
    decreases s.len() - from,
{
    if from < s.len() && is_digit(s[from]) {
        lemma_digits_end(s, from + 1);
    }
}

/// The length of the "al" or "amzn" label base at the start of `s`, or
/// -1 when neither starts it.
pub open spec fn label_base_len(s: Seq<char>) -> int {
    if s.len() >= 4 && s[0] == 'a' && s[1] == 'm' && s[2] == 'z' && s[3] == 'n' {
        4
    } else if s.len() >= 2 && s[0] == 'a' && s[1] == 'l' {
        2
    } else {
        -1
    }
}

/// The version token and its weight under `scheme`, or nothing when the
/// name does not carry a version in that shape.
pub open spec fn scheme_match(scheme: VersionScheme, s: Seq<char>) -> Option<(Seq<char>, nat)> {
    match scheme {
        VersionScheme::LabeledCount => {
            let b = label_base_len(s);
            if b == -1 {
                None
            } else {
                let e = digits_end(s, b);
                if e < s.len() && s[e] == '-' {
                    Some((s.take(e), if e == b {
                        1 as nat
                    } else {
                        digits_val(s, b, e)
                    }))
                } else {
                    None
                }
            }
        },
        VersionScheme::PlainInteger => {
            if s.len() >= 1 && is_digit(s[0]) && s[0] != '0' {
                let e = digits_end(s, 0);
                if e < s.len() && s[e] == '/' {
                    Some((s.take(e), digits_val(s, 0, e)))
                } else {
                    None
                }
            } else {
                None
            }
        },
        VersionScheme::MajorMinor => {
            if s.len() >= 1 && is_digit(s[0]) && s[0] != '0' {
                let e = digits_end(s, 0);
                if e + 3 < s.len() && s[e] == '.' && is_digit(s[e + 1]) && is_digit(s[e + 2])
                    && s[e + 3] == '/' {
                    Some((s.take(e + 3), digits_val(s, 0, e) * 100 + digits_val(s, e + 1, e + 3)))
                } else {
                    None
                }
            } else {
                None
            }
        },
    }
}

/// The end of the digit run starting at `from`.
fn digits_end_exec(s: &str, from: usize) -> (e: usize)
    requires
        from <= s@.len(),
    ensures
        e == digits_end(s@, from as int),
        from <= e <= s@.len(),
{
    proof {
        lemma_digits_end(s@, from as int);
    }
    let n = s.unicode_len();
    let mut i: usize = from;
    while i < n
        invariant
            from <= i <= n == s@.len(),
            forall|k: int| from <= k < i ==> is_digit(s@[k]),
            digits_end(s@, from as int) >= i,
        decreases n - i,
    {
        let c = s.get_char(i);
        if !(48 <= c as u32 && c as u32 <= 57) {
            proof {
                lemma_digits_end(s@, from as int);
                if digits_end(s@, from as int) > i {
                    assert(is_digit(s@[i as int]));
                }
            }
            return i;
        }
        proof {
            lemma_digits_end_step(s@, from as int, i as int);
        }
        i = i + 1;
    }
    proof {
        lemma_digits_end(s@, from as int);
    }
    n
}

/// A digit at the cursor pushes the end of the digit run past it.
proof fn lemma_digits_end_step(s: Seq<char>, from: int, i: int)
    requires
        0 <= from <= i < s.len(),
        forall|k: int| from <= k < i ==> is_digit(s[k]),
        is_digit(s[i]),
        digits_end(s, from) >= i,
    ensures
        digits_end(s, from) >= i + 1,
    decreases i - from,
{
    if from < i {
        lemma_digits_end_step(s, from + 1, i);
    } else {
        lemma_digits_end(s, from + 1);
    }
}

/// Reads the version token of `name` under `scheme`: the token text and
/// its weight, nothing when the name has no version, or the
/// version-parse defect when the weight does not fit.
pub fn extract_version(scheme: VersionScheme, name: &str) -> (r: Result<
    Option<(usize, String)>,
    SelectError,
>)
    ensures
        match scheme_match(scheme, name@) {
            None => r == Ok::<Option<(usize, String)>, SelectError>(None),
            Some(p) => {
                if p.1 <= usize::MAX {
                    match r {
                        Ok(Some((rv, rt))) => rv == p.1 && rt@ == p.0,
                        _ => false,
                    }
                } else {
                    r == Err::<Option<(usize, String)>, SelectError>(
                        SelectError::VersionParseAmbiguous,
                    )
                }
            },
        },
{
    let n = name.unicode_len();
    match scheme {
        VersionScheme::LabeledCount => {
            let b: usize = if n >= 4 && name.get_char(0) == 'a' && name.get_char(1) == 'm'
                && name.get_char(2) == 'z' && name.get_char(3) == 'n' {
                4
            } else if n >= 2 && name.get_char(0) == 'a' && name.get_char(1) == 'l' {
                2
            } else {
                return Ok(None);
            };
            proof {
                assert(label_base_len(name@) == b as int);
            }
            let e = digits_end_exec(name, b);
            if !(e < n && name.get_char(e) == '-') {
                return Ok(None);
            }
            let tok = name.substring_char(0, e).to_owned();
            proof {
                assert(tok@ =~= name@.take(e as int));
                lemma_digits_end(name@, b as int);
            }
            if e == b {
                Ok(Some((1, tok)))
            } else {
                match parse_decimal(name, b, e) {
                    Some(v) => Ok(Some((v, tok))),
                    None => Err(SelectError::VersionParseAmbiguous),
                }
            }
        },
        VersionScheme::PlainInteger => {
            if !(n >= 1) {
                return Ok(None);
            }
            let c0 = name.get_char(0);
            if !(48 <= c0 as u32 && c0 as u32 <= 57) || c0 == '0' {
                return Ok(None);
            }
            let e = digits_end_exec(name, 0);
            if !(e < n && name.get_char(e) == '/') {
                return Ok(None);
            }
            let tok = name.substring_char(0, e).to_owned();
            proof {
                assert(tok@ =~= name@.take(e as int));
                lemma_digits_end(name@, 0);
            }
            match parse_decimal(name, 0, e) {
                Some(v) => Ok(Some((v, tok))),
                None => Err(SelectError::VersionParseAmbiguous),
            }
        },
        VersionScheme::MajorMinor => {
            if !(n >= 1) {
                return Ok(None);
            }
            let c0 = name.get_char(0);
            if !(48 <= c0 as u32 && c0 as u32 <= 57) || c0 == '0' {
                return Ok(None);
            }
            let e = digits_end_exec(name, 0);
            if !(e < n && n - e > 3 && name.get_char(e) == '.') {
                proof {
                    assert((e as int) + 3 < n as int ==> e < n && n as int - e as int > 3);
                }
                return Ok(None);
            }
            let m1 = name.get_char(e + 1);
            let m2 = name.get_char(e + 2);
            if !(48 <= m1 as u32 && m1 as u32 <= 57) || !(48 <= m2 as u32 && m2 as u32 <= 57)
                || name.get_char(e + 3) != '/' {
                return Ok(None);
            }
            let tok = name.substring_char(0, e + 3).to_owned();
            proof {
                assert(tok@ =~= name@.take(e + 3));
                lemma_digits_end(name@, 0);
            }
            let minor = match parse_decimal(name, e + 1, e + 3) {
                Some(v) => v,
                None => {
                    proof {
                        lemma_two_digits_small(name@, e as int);
                    }
                    return Err(SelectError::VersionParseAmbiguous);
                },
            };
            proof {
                lemma_two_digits_small(name@, e as int);
            }
            let major = match parse_decimal(name, 0, e) {
                Some(v) => v,
                None => {
                    proof {
                        lemma_weight_overflow(name@, e as int);
                    }
                    return Err(SelectError::VersionParseAmbiguous);
                },
            };
            let weighed = match major.checked_mul(100) {
                Some(m) => m.checked_add(minor),
                None => None,
            };
            match weighed {
                Some(v) => Ok(Some((v, tok))),
                None => {
                    proof {
                        lemma_weight_overflow(name@, e as int);
                    }
                    Err(SelectError::VersionParseAmbiguous)
                },
            }
        },
    }
}

/// A two-digit run is worth at most 99.
proof fn lemma_two_digits_small(s: Seq<char>, e: int)
    requires
        0 <= e,
        e + 3 < s.len(),
    ensures
        digits_val(s, e + 1, e + 3) <= 99,
{
    assert(digits_val(s, e + 1, e + 1) == 0);
    assert(digits_val(s, e + 1, e + 2) == crate::text::digit_of(s[e + 1]));
    assert(digits_val(s, e + 1, e + 3) == digits_val(s, e + 1, e + 2) * 10 + crate::text::digit_of(
        s[e + 2],
    ));
}

/// When the major part does not fit, neither does the weighed version.
proof fn lemma_weight_overflow(s: Seq<char>, e: int)
    requires
        0 <= e,
        e + 3 < s.len(),
    ensures
        digits_val(s, 0, e) * 100 + digits_val(s, e + 1, e + 3) >= digits_val(s, 0, e),
{
    assert(digits_val(s, 0, e) * 100 >= digits_val(s, 0, e)) by (nonlinear_arith);
}

/// The best version over the first `n` names: the greatest weight, ties
/// going to the lexicographically last token.
pub open spec fn best_version(names: Seq<Seq<char>>, scheme: VersionScheme, n: int) -> Option<
    (nat, Seq<char>),
>
    decreases n,
{
    if n <= 0 {
        None
    } else {
        let p = best_version(names, scheme, n - 1);
        match scheme_match(scheme, names[n - 1]) {
            None => p,
            Some(q) => match p {
                None => Some((q.1, q.0)),
                Some(b) => if q.1 > b.0 || (q.1 == b.0 && spec_str_lt(b.1, q.0)) {
                    Some((q.1, q.0))
                } else {
                    Some(b)
                },
            },
        }
    }
}

/// Whether some of the first `n` names carries a version too large to
/// parse.
pub open spec fn any_version_overflow(names: Seq<Seq<char>>, scheme: VersionScheme, n: int) -> bool {
    exists|k: int|
        0 <= k < n && (#[trigger] scheme_match(scheme, names[k])) is Some && (scheme_match(
            scheme,
            names[k],
        )->0).1 > usize::MAX
}

/// The names of a sequence of candidates.
pub open spec fn detail_names(s: Seq<DetailView>) -> Seq<Seq<char>> {
    Seq::new(s.len(), |i: int| s[i].name)
}

/// Finds the best version over the candidates' names, or the
/// version-parse defect when one version does not fit.
#[verifier::loop_isolation(false)]
fn best_version_of(details: &Vec<AmiDetail>, scheme: VersionScheme) -> (r: Result<
    Option<(usize, String)>,
    SelectError,
>)
    ensures
        ({
            let names = detail_names(detail_views(details@));
            match r {
                Ok(None) => best_version(names, scheme, names.len() as int) is None
                    && !any_version_overflow(names, scheme, names.len() as int),
                Ok(Some((rv, rt))) => best_version(names, scheme, names.len() as int) == Some(
                    (rv as nat, rt@),
                ) && !any_version_overflow(names, scheme, names.len() as int),
                Err(e) => e == SelectError::VersionParseAmbiguous && any_version_overflow(
                    names,
                    scheme,
                    names.len() as int,
                ),
            }
        }),
{
    let ghost names = detail_names(detail_views(details@));
    let n = details.len();
    let mut best: Option<(usize, String)> = None;
    let mut i: usize = 0;
    while i < n
        invariant
            0 <= i <= n == names.len(),
            !any_version_overflow(names, scheme, i as int),
            match best {
                None => best_version(names, scheme, i as int) is None,
                Some((bv, bt)) => best_version(names, scheme, i as int) == Some((bv as nat, bt@)),
            },
        decreases n - i,
    {
        proof {
            assert(names[i as int] == details@[i as int]@.name);
        }
        match extract_version(scheme, details[i].name.as_str()) {
            Ok(None) => (),
            Ok(Some((v, t))) => {
                let replace = match &best {
                    None => true,
                    Some((bv, bt)) => v > *bv || (v == *bv && str_lt(bt.as_str(), t.as_str())),
                };
                if replace {
                    best = Some((v, t));
                }
            },
            Err(e) => {
                proof {
                    assert(scheme_match(scheme, names[i as int]) is Some && (scheme_match(
                        scheme,
                        names[i as int],
                    )->0).1 > usize::MAX);
                }
                return Err(e);
            },
        }
        i = i + 1;
    }
    match best {
        None => Ok(None),
        Some(b) => Ok(Some(b)),
    }
}

/// The token sequence whose bits make a family's mask: the version token,
/// the qualifiers, and both architecture tokens.
pub open spec fn mask_tokens(tok: Seq<char>, quals: Seq<Seq<char>>) -> Seq<Seq<char>> {
    seq![tok] + quals + seq!["amd64"@, "arm64"@]
}

/// The token sequence whose bits make one architecture's value: the
/// version token, the qualifiers, and that architecture's token.
pub open spec fn value_tokens(tok: Seq<char>, quals: Seq<Seq<char>>, arch: Seq<char>) -> Seq<
    Seq<char>,
> {
    seq![tok] + quals + seq![arch]
}

/// The registry and the three words of a preferred filter: the shared
/// mask, then one value per architecture, encoded in that order.
pub open spec fn spec_build_pref(r0: RegView, tok: Seq<char>, quals: Seq<Seq<char>>) -> (
    RegView,
    u128,
    u128,
    u128,
) {
    let m = spec_encode_seq(r0, mask_tokens(tok, quals));
    let a = spec_encode_seq(m.0, value_tokens(tok, quals, "amd64"@));
    let b = spec_encode_seq(a.0, value_tokens(tok, quals, "arm64"@));
    (b.0, m.1, a.1, b.1)
}

/// Whether all three encodings stay within the bit width.
pub open spec fn spec_build_pref_ok(r0: RegView, tok: Seq<char>, quals: Seq<Seq<char>>) -> bool {
    let m = spec_encode_seq(r0, mask_tokens(tok, quals));
    let a = spec_encode_seq(m.0, value_tokens(tok, quals, "amd64"@));
    spec_encode_seq_ok(r0, mask_tokens(tok, quals)) && spec_encode_seq_ok(
        m.0,
        value_tokens(tok, quals, "amd64"@),
    ) && spec_encode_seq_ok(a.0, value_tokens(tok, quals, "arm64"@))
}

/// What the preferred filter promises: nothing was preferred and the
/// filter passes everything, or the filter is the two mask-equals-value
/// tests of the best version with the qualifiers, one per architecture.
pub open spec fn pref_filter_post(
    r: Result<Filter, SelectError>,
    r0: RegView,
    r1: RegView,
    names: Seq<Seq<char>>,
    scheme: VersionScheme,
    quals: Seq<Seq<char>>,
) -> bool {
    match best_version(names, scheme, names.len() as int) {
        None => {
            if any_version_overflow(names, scheme, names.len() as int) {
                r == Err::<Filter, SelectError>(SelectError::VersionParseAmbiguous)
            } else {
                r is Ok && r->Ok_0 is Or && r->Ok_0->Or_0@.len() == 0 && r1 == r0
            }
        },
        Some(b) => {
            if any_version_overflow(names, scheme, names.len() as int) {
                r == Err::<Filter, SelectError>(SelectError::VersionParseAmbiguous)
            } else if spec_build_pref_ok(r0, b.1, quals) {
                let built = spec_build_pref(r0, b.1, quals);
                r is Ok && r->Ok_0 is Or && r->Ok_0->Or_0@.len() == 2 && r->Ok_0->Or_0@[0] == (
                Filter::MaskEqualsValue { mask: built.1, value: built.2 }) && r->Ok_0->Or_0@[1] == (
                Filter::MaskEqualsValue { mask: built.1, value: built.3 }) && r1 == built.0
            } else {
                r == Err::<Filter, SelectError>(SelectError::ConfigurationExhausted)
            }
        },
    }
}

/// Builds one family's preferred filter: the best version is taken from
/// the candidates' names, and the filter keeps, per architecture, the
/// candidates carrying that version token, every qualifier, and that
/// architecture alone.  With no version in sight the filter passes
/// everything.
pub fn create_preferred_filter(
    details: &Vec<AmiDetail>,
    reg: &mut StringsToBitmask,
    scheme: VersionScheme,
    qualifiers: &Vec<String>,
) -> (r: Result<Filter, SelectError>)
    requires
        wf(old(reg)@),
    ensures
        wf(final(reg)@),
        pref_filter_post(
            r,
            old(reg)@,
            final(reg)@,
            detail_names(detail_views(details@)),
            scheme,
            seq_views(qualifiers@),
        ),
{
    let ghost names = detail_names(detail_views(details@));
    let best = match best_version_of(details, scheme) {
        Ok(b) => b,
        Err(e) => {
            return Err(e);
        },
    };
    match best {
        None => {
            let fs: Vec<Filter> = Vec::new();
            Ok(Filter::Or(fs))
        },
        Some((_v, tok)) => {
            let mask_toks = gather_tokens(&tok, qualifiers, "amd64", true);
            let va_toks = gather_tokens(&tok, qualifiers, "amd64", false);
            let vb_toks = gather_tokens(&tok, qualifiers, "arm64", false);
            proof {
                assert(seq_views(mask_toks@) =~= mask_tokens(tok@, seq_views(qualifiers@)));
                assert(seq_views(va_toks@) =~= value_tokens(tok@, seq_views(qualifiers@), "amd64"@));
                assert(seq_views(vb_toks@) =~= value_tokens(tok@, seq_views(qualifiers@), "arm64"@));
            }
            let mask = match reg.bitmask_from(&mask_toks) {
                Ok(w) => w,
                Err(e) => {
                    return Err(e);
                },
            };
            let va = match reg.bitmask_from(&va_toks) {
                Ok(w) => w,
                Err(e) => {
                    return Err(e);
                },
            };
            let vb = match reg.bitmask_from(&vb_toks) {
                Ok(w) => w,
                Err(e) => {
                    return Err(e);
                },
            };
            let mut fs: Vec<Filter> = Vec::new();
            fs.push(Filter::MaskEqualsValue { mask, value: va });
            fs.push(Filter::MaskEqualsValue { mask, value: vb });
            Ok(Filter::Or(fs))
        },
    }
}

/// The token list of one encoding run: the version token, the
/// qualifiers, and one architecture token or both.
fn gather_tokens(tok: &String, qualifiers: &Vec<String>, arch: &str, both: bool) -> (r: Vec<String>)
    ensures
        both ==> seq_views(r@) == seq![tok@] + seq_views(qualifiers@) + seq!["amd64"@, "arm64"@],
        !both ==> seq_views(r@) == seq![tok@] + seq_views(qualifiers@) + seq![arch@],
{
    let mut r: Vec<String> = Vec::new();
    r.push(tok.clone());
    let mut i: usize = 0;
    while i < qualifiers.len()
        invariant
            0 <= i <= qualifiers@.len(),
            r@.len() == 1 + i,
            seq_views(r@) == seq![tok@] + seq_views(qualifiers@).take(i as int),
        decreases qualifiers@.len() - i,
    {
        let ghost before = r@;
        r.push(qualifiers[i].clone());
        proof {
            assert forall|k: int| 0 <= k < r@.len() implies seq_views(r@)[k] == (seq![tok@]
                + seq_views(qualifiers@).take(i + 1))[k] by {
                assert(seq_views(r@)[k] == r@[k]@);
                if k < before.len() {
                    assert(r@[k] == before[k]);
                    assert(seq_views(before)[k] == before[k]@);
                } else {
                    assert(seq_views(qualifiers@)[i as int] == qualifiers@[i as int]@);
                }
            }
            assert(seq_views(r@) =~= seq![tok@] + seq_views(qualifiers@).take(i + 1));
        }
        i = i + 1;
    }
    proof {
        assert(seq_views(qualifiers@).take(qualifiers@.len() as int) =~= seq_views(qualifiers@));
    }
    if both {
        r.push(String::from_str("amd64"));
        r.push(String::from_str("arm64"));
        proof {
            assert(seq_views(r@) =~= seq![tok@] + seq_views(qualifiers@) + seq![
                "amd64"@,
                "arm64"@,
            ]);
        }
    } else {
        r.push(String::from_str(arch));
        proof {
            assert(seq_views(r@) =~= seq![tok@] + seq_views(qualifiers@) + seq![arch@]);
        }
    }
    r
}

/// The Amazon Linux preferred filter: labeled versions, with the
/// kernel-default and minimal qualifiers.
pub fn create_preferred_filter_for_amazon(details: &Vec<AmiDetail>, reg: &mut StringsToBitmask) -> (r: Result<Filter, SelectError>)
    requires
        wf(old(reg)@),
    ensures
        wf(final(reg)@),
        pref_filter_post(
            r,
            old(reg)@,
            final(reg)@,
            detail_names(detail_views(details@)),
            VersionScheme::LabeledCount,
            seq!["kernel-default"@, "minimal"@],
        ),
{
    let mut quals: Vec<String> = Vec::new();
    quals.push(String::from_str("kernel-default"));
    quals.push(String::from_str("minimal"));
    proof {
        assert(seq_views(quals@) =~= seq!["kernel-default"@, "minimal"@]);
    }
    create_preferred_filter(details, reg, VersionScheme::LabeledCount, &quals)
}

/// The Debian preferred filter: plain integer versions, with the latest
/// qualifier.
pub fn create_preferred_filter_for_debian(details: &Vec<AmiDetail>, reg: &mut StringsToBitmask) -> (r: Result<Filter, SelectError>)
    requires
        wf(old(reg)@),
    ensures
        wf(final(reg)@),
        pref_filter_post(
            r,
            old(reg)@,
            final(reg)@,
            detail_names(detail_views(details@)),
            VersionScheme::PlainInteger,
            seq!["latest"@],
        ),
{
    let mut quals: Vec<String> = Vec::new();
    quals.push(String::from_str("latest"));
    proof {
        assert(seq_views(quals@) =~= seq!["latest"@]);
    }
    create_preferred_filter(details, reg, VersionScheme::PlainInteger, &quals)
}

/// The Ubuntu preferred filter: dotted major.minor versions, with the
/// stable and current qualifiers.
pub fn create_preferred_filter_for_ubuntu(details: &Vec<AmiDetail>, reg: &mut StringsToBitmask) -> (r: Result<Filter, SelectError>)
    requires
        wf(old(reg)@),
    ensures
        wf(final(reg)@),
        pref_filter_post(
            r,
            old(reg)@,
            final(reg)@,
            detail_names(detail_views(details@)),
            VersionScheme::MajorMinor,
            seq!["stable"@, "current"@],
        ),
{
    let mut quals: Vec<String> = Vec::new();
    quals.push(String::from_str("stable"));
    quals.push(String::from_str("current"));
    proof {
        assert(seq_views(quals@) =~= seq!["stable"@, "current"@]);
    }
    create_preferred_filter(details, reg, VersionScheme::MajorMinor, &quals)
}

} // verus!

//! The selection pipeline: raw name/payload pairs become prefix-stripped,
//! bitmask-tagged candidates; each family's preferred filter and the
//! global architecture filter then narrow them; the surviving candidates
//! come out ordered, and a caller-imposed single-result demand is
//! enforced, never silently coerced.
use vstd::prelude::*;
use crate::errors::SelectError;
use crate::filter::Filter;
use crate::candidate::{
    AmiDetail, AmiDetailsWithFilter, DetailView, OperatingSystem, Architecture, SelectOptions,
    detail_views, spec_sort, sort_details, spec_filter_details, spec_os_text, spec_arch_token,
};
use crate::prefix::{common_prefix, spec_common_prefix, strip_prefix_checked};
use crate::registry::{
    StringsToBitmask, RegView, IgnoreRule, wf, spec_encode_seq, spec_encode_seq_ok, spec_alias,
    spec_alias_ok,
};
use crate::text::{seq_views, split_segments, spec_split};
use crate::version::{
    VersionScheme, best_version, any_version_overflow, detail_names, spec_build_pref,
    spec_build_pref_ok, create_preferred_filter_for_amazon, create_preferred_filter_for_debian,
    create_preferred_filter_for_ubuntu,
};

verus! {

/// Whether the common prefix is a literal prefix of every name.
pub open spec fn prefix_ok(names_v: Seq<Seq<char>>) -> bool {
    let p = spec_common_prefix(names_v, '/');
    forall|i: int|
        0 <= i < names_v.len() ==> p.len() <= (#[trigger] names_v[i]).len() && names_v[i].take(
            p.len() as int,
        ) == p
}

/// The names with the common prefix removed.
pub open spec fn stripped_names(names_v: Seq<Seq<char>>) -> Seq<Seq<char>> {
    let p = spec_common_prefix(names_v, '/');
    Seq::new(names_v.len(), |i: int| names_v[i].skip(p.len() as int))
}

/// The registry after encoding the first `n` stripped names in order.
pub open spec fn conv_reg(r: RegView, stripped: Seq<Seq<char>>, sep: char, n: int) -> RegView
    decreases n,
{
    if n <= 0 {
        r
    } else {
        spec_encode_seq(conv_reg(r, stripped, sep, n - 1), spec_split(stripped[n - 1], sep)).0
    }
}

/// Whether encoding the first `n` stripped names stays within the bit
/// width.
pub open spec fn conv_ok(r: RegView, stripped: Seq<Seq<char>>, sep: char, n: int) -> bool
    decreases n,
{
    if n <= 0 {
        true
    } else {
        conv_ok(r, stripped, sep, n - 1) && spec_encode_seq_ok(
            conv_reg(r, stripped, sep, n - 1),
            spec_split(stripped[n - 1], sep),
        )
    }
}

/// The bitmask of the `k`-th stripped name.
pub open spec fn conv_word(r: RegView, stripped: Seq<Seq<char>>, sep: char, k: int) -> u128 {
    spec_encode_seq(conv_reg(r, stripped, sep, k), spec_split(stripped[k], sep)).1
}

/// The conversion of a family's pairs: the family tag is encoded first,
/// then each stripped name in order; each candidate carries its name's
/// bits OR-ed with the family-tag bits.  Yields the final registry and
/// the candidates in input order.
pub open spec fn spec_convert(
    r0: RegView,
    os: OperatingSystem,
    names_v: Seq<Seq<char>>,
    amis_v: Seq<Seq<char>>,
    sep: char,
) -> (RegView, Seq<DetailView>) {
    let os_run = spec_encode_seq(r0, seq![spec_os_text(os)]);
    let stripped = stripped_names(names_v);
    let rn = conv_reg(os_run.0, stripped, sep, names_v.len() as int);
    (
        rn,
        Seq::new(
            names_v.len(),
            |i: int|
                DetailView {
                    operating_system: os,
                    name: stripped[i],
                    ami: amis_v[i],
                    bitmask: conv_word(os_run.0, stripped, sep, i) | os_run.1,
                },
        ),
    )
}

/// Whether the whole conversion stays within the bit width.
pub open spec fn spec_convert_ok(
    r0: RegView,
    os: OperatingSystem,
    names_v: Seq<Seq<char>>,
    sep: char,
) -> bool {
    let os_run = spec_encode_seq(r0, seq![spec_os_text(os)]);
    spec_encode_seq_ok(r0, seq![spec_os_text(os)]) && conv_ok(
        os_run.0,
        stripped_names(names_v),
        sep,
        names_v.len() as int,
    )
}

/// Turns a family's raw name/payload pairs into sorted candidates: the
/// common prefix is stripped (a mismatch is the caller's malformed data),
/// each stripped name is split on the family separator and encoded, and
/// the candidates come out sorted by family, name, payload.
#[verifier::loop_isolation(false)]
pub fn convert_pairs_to_details(
    operating_system: OperatingSystem,
    names: Vec<String>,
    amis: Vec<String>,
    all_segments: &mut StringsToBitmask,
    segment_separator: char,
) -> (r: Result<Vec<AmiDetail>, SelectError>)
    requires
        wf(old(all_segments)@),
        names@.len() == amis@.len(),
    ensures
        wf(final(all_segments)@),
        !prefix_ok(seq_views(names@)) ==> r == Err::<Vec<AmiDetail>, SelectError>(
            SelectError::PrefixMismatch,
        ) && *final(all_segments) == *old(all_segments),
        prefix_ok(seq_views(names@)) && !spec_convert_ok(
            old(all_segments)@,
            operating_system,
            seq_views(names@),
            segment_separator,
        ) ==> r == Err::<Vec<AmiDetail>, SelectError>(SelectError::ConfigurationExhausted),
        prefix_ok(seq_views(names@)) && spec_convert_ok(
            old(all_segments)@,
            operating_system,
            seq_views(names@),
            segment_separator,
        ) ==> {
            &&& r is Ok
            &&& detail_views(r->Ok_0@) == spec_sort(
                spec_convert(
                    old(all_segments)@,
                    operating_system,
                    seq_views(names@),
                    seq_views(amis@),
                    segment_separator,
                ).1,
            )
            &&& final(all_segments)@ == spec_convert(
                old(all_segments)@,
                operating_system,
                seq_views(names@),
                seq_views(amis@),
                segment_separator,
            ).0
        },
{
    let ghost r0 = all_segments@;
    let ghost names_v = seq_views(names@);
    let ghost amis_v = seq_views(amis@);
    let prefix = common_prefix(&names, '/');
    let n = names.len();

    let mut stripped: Vec<String> = Vec::new();
    let mut i: usize = 0;
    while i < n
        invariant
            0 <= i <= n == names@.len(),
            stripped@.len() == i,
            forall|k: int| 0 <= k < i ==> prefix@.len() <= (#[trigger] names_v[k]).len()
                && names_v[k].take(prefix@.len() as int) == prefix@,
            forall|k: int| 0 <= k < i ==> (#[trigger] stripped@[k])@ == names_v[k].skip(
                prefix@.len() as int,
            ),
        decreases n - i,
    {
        proof {
            assert(names_v[i as int] == names@[i as int]@);
        }
        match strip_prefix_checked(names[i].as_str(), prefix.as_str()) {
            Some(rest) => {
                stripped.push(rest);
            },
            None => {
                proof {
                    assert(!prefix_ok(names_v));
                }
                return Err(SelectError::PrefixMismatch);
            },
        }
        i = i + 1;
    }
    proof {
        assert(prefix_ok(names_v));
        assert(seq_views(stripped@) =~= stripped_names(names_v));
    }

    let mut os_toks: Vec<String> = Vec::new();
    os_toks.push(String::from_str(operating_system.text()));
    proof {
        assert(seq_views(os_toks@) =~= seq![spec_os_text(operating_system)]);
    }
    let os_bitmask = match all_segments.bitmask_from(&os_toks) {
        Ok(w) => w,
        Err(e) => {
            return Err(e);
        },
    };
    let ghost r_os = all_segments@;
    let ghost strip_v = stripped_names(names_v);

    let mut details: Vec<AmiDetail> = Vec::new();
    let mut i: usize = 0;
    while i < n
        invariant
            0 <= i <= n,
            stripped@.len() == n,
            amis@.len() == n,
            forall|k: int| 0 <= k < n ==> (#[trigger] stripped@[k])@ == strip_v[k],
            wf(all_segments@),
            conv_ok(r_os, strip_v, segment_separator, i as int),
            all_segments@ == conv_reg(r_os, strip_v, segment_separator, i as int),
            details@.len() == i,
            forall|k: int| 0 <= k < i ==> (#[trigger] details@[k])@ == (DetailView {
                operating_system,
                name: strip_v[k],
                ami: amis_v[k],
                bitmask: conv_word(r_os, strip_v, segment_separator, k) | os_bitmask,
            }),
        decreases n - i,
    {
        let toks = split_segments(stripped[i].as_str(), segment_separator);
        let word = match all_segments.bitmask_from(&toks) {
            Ok(w) => w,
            Err(e) => {
                proof {
                    lemma_conv_not_ok(r_os, strip_v, segment_separator, i + 1, n as int);
                }
                return Err(e);
            },
        };
        let d = AmiDetail {
            operating_system,
            name: stripped[i].clone(),
            ami: amis[i].clone(),
            bitmask: word | os_bitmask,
        };
        proof {
            assert(amis_v[i as int] == amis@[i as int]@);
        }
        details.push(d);
        i = i + 1;
    }
    let sorted = sort_details(details);
    proof {
        assert(detail_views(details@) =~= spec_convert(
            r0,
            operating_system,
            names_v,
            amis_v,
            segment_separator,
        ).1);
    }
    Ok(sorted)
}

/// A conversion that has failed by name `i` has failed for the whole
/// list.
proof fn lemma_conv_not_ok(r: RegView, stripped: Seq<Seq<char>>, sep: char, i: int, n: int)
    requires
        0 <= i <= n,
        !conv_ok(r, stripped, sep, i),
    ensures
        !conv_ok(r, stripped, sep, n),
    decreases n - i,
{
    if i < n {
        lemma_conv_not_ok(r, stripped, sep, i, n - 1);
    }
}

/// The separator splitting one family's names into segments.
pub open spec fn family_sep(family: OperatingSystem) -> char {
    if family == OperatingSystem::Amazon {
        '-'
    } else {
        '/'
    }
}

/// How one family configures the registry before its pass.
pub open spec fn family_reg_setup(r: RegView, family: OperatingSystem) -> RegView {
    if family == OperatingSystem::Amazon {
        RegView { combining: r.combining.push("kernel"@), ignore: IgnoreRule::Never, ..r }
    } else if family == OperatingSystem::Debian {
        RegView { combining: Seq::empty(), ignore: IgnoreRule::DateSerial, ..r }
    } else {
        RegView { combining: Seq::empty(), ignore: IgnoreRule::DateRevision, ..r }
    }
}

/// The version scheme of one family.
pub open spec fn family_scheme(family: OperatingSystem) -> VersionScheme {
    if family == OperatingSystem::Amazon {
        VersionScheme::LabeledCount
    } else if family == OperatingSystem::Debian {
        VersionScheme::PlainInteger
    } else {
        VersionScheme::MajorMinor
    }
}

/// The required qualifier segments of one family.
pub open spec fn family_quals(family: OperatingSystem) -> Seq<Seq<char>> {
    if family == OperatingSystem::Amazon {
        seq!["kernel-default"@, "minimal"@]
    } else if family == OperatingSystem::Debian {
        seq!["latest"@]
    } else {
        seq!["stable"@, "current"@]
    }
}

/// The candidates that carry either of the two mask-equals-value words.
pub open spec fn filter_mev2(s: Seq<DetailView>, mask: u128, va: u128, vb: u128) -> Seq<DetailView>
    decreases s.len(),
{
    if s.len() == 0 {
        Seq::empty()
    } else {
        let p = filter_mev2(s.drop_last(), mask, va, vb);
        if s.last().bitmask & mask == va || s.last().bitmask & mask == vb {
            p.push(s.last())
        } else {
            p
        }
    }
}

/// The candidates that carry the one mask-equals-value word.
pub open spec fn filter_mev1(s: Seq<DetailView>, mask: u128, value: u128) -> Seq<DetailView>
    decreases s.len(),
{
    if s.len() == 0 {
        Seq::empty()
    } else {
        let p = filter_mev1(s.drop_last(), mask, value);
        if s.last().bitmask & mask == value {
            p.push(s.last())
        } else {
            p
        }
    }
}

/// One family's full pass: configure the registry, convert the pairs,
/// build the preferred filter, and keep what it accepts.  Yields the
/// final registry and the surviving candidates, in order.
pub open spec fn spec_family(
    r: RegView,
    family: OperatingSystem,
    names_v: Seq<Seq<char>>,
    amis_v: Seq<Seq<char>>,
) -> Result<(RegView, Seq<DetailView>), SelectError> {
    let r1 = family_reg_setup(r, family);
    let sep = family_sep(family);
    if !prefix_ok(names_v) {
        Err(SelectError::PrefixMismatch)
    } else if !spec_convert_ok(r1, family, names_v, sep) {
        Err(SelectError::ConfigurationExhausted)
    } else {
        let conv = spec_convert(r1, family, names_v, amis_v, sep);
        let sorted = spec_sort(conv.1);
        let names = detail_names(sorted);
        if any_version_overflow(names, family_scheme(family), names.len() as int) {
            Err(SelectError::VersionParseAmbiguous)
        } else {
            match best_version(names, family_scheme(family), names.len() as int) {
                None => Ok((conv.0, sorted)),
                Some(b) => {
                    if spec_build_pref_ok(conv.0, b.1, family_quals(family)) {
                        let built = spec_build_pref(conv.0, b.1, family_quals(family));
                        Ok((built.0, filter_mev2(sorted, built.1, built.2, built.3)))
                    } else {
                        Err(SelectError::ConfigurationExhausted)
                    }
                },
            }
        }
    }
}

/// An empty disjunction keeps every candidate.
proof fn lemma_filter_or_empty(s: Seq<DetailView>, f: Filter)
    requires
        f is Or,
        f->Or_0@.len() == 0,
    ensures
        spec_filter_details(s, f) == s,
    decreases s.len(),
{
    if s.len() > 0 {
        lemma_filter_or_empty(s.drop_last(), f);
        assert(spec_filter_details(s, f) =~= s);
    }
}

/// A two-member disjunction of mask-equals-value tests keeps exactly the
/// candidates carrying either word.
proof fn lemma_filter_or_two(s: Seq<DetailView>, f: Filter, mask: u128, va: u128, vb: u128)
    requires
        f is Or,
        f->Or_0@.len() == 2,
        f->Or_0@[0] == (Filter::MaskEqualsValue { mask, value: va }),
        f->Or_0@[1] == (Filter::MaskEqualsValue { mask, value: vb }),
    ensures
        spec_filter_details(s, f) == filter_mev2(s, mask, va, vb),
    decreases s.len(),
{
    if s.len() > 0 {
        lemma_filter_or_two(s.drop_last(), f, mask, va, vb);
        crate::filter::lemma_any_matches(f->Or_0@, s.last().bitmask);
        if s.last().bitmask & mask == va {
            assert(f->Or_0@[0].spec_matches(s.last().bitmask));
        } else if s.last().bitmask & mask == vb {
            assert(f->Or_0@[1].spec_matches(s.last().bitmask));
        } else {
            assert(forall|i: int| 0 <= i < 2 ==> !(#[trigger] f->Or_0@[i]).spec_matches(
                s.last().bitmask,
            ));
        }
    }
}

/// One family's pass over its fetched pairs: the registry is configured
/// for the family, the pairs become sorted candidates, and the family's
/// preferred filter keeps only the newest, correctly-qualified entry per
/// architecture.
pub fn process_family(
    family: OperatingSystem,
    names: Vec<String>,
    amis: Vec<String>,
    reg: &mut StringsToBitmask,
) -> (r: Result<Vec<AmiDetail>, SelectError>)
    requires
        wf(old(reg)@),
        family != OperatingSystem::All,
        names@.len() == amis@.len(),
    ensures
        wf(final(reg)@),
        ({
            let outcome = spec_family(old(reg)@, family, seq_views(names@), seq_views(amis@));
            match r {
                Ok(v) => outcome is Ok && detail_views(v@) == outcome->Ok_0.1 && final(reg)@
                    == outcome->Ok_0.0,
                Err(e) => outcome is Err && e == outcome->Err_0,
            }
        }),
{
    let ghost names_v = seq_views(names@);
    let ghost amis_v = seq_views(amis@);
    let sep: char;
    let scheme: VersionScheme;
    match family {
        OperatingSystem::Amazon => {
            reg.combining("kernel");
            reg.clear_ignore();
            sep = '-';
            scheme = VersionScheme::LabeledCount;
        },
        OperatingSystem::Debian => {
            reg.clear_combining();
            reg.ignore(IgnoreRule::DateSerial);
            sep = '/';
            scheme = VersionScheme::PlainInteger;
        },
        _ => {
            reg.clear_combining();
            reg.ignore(IgnoreRule::DateRevision);
            sep = '/';
            scheme = VersionScheme::MajorMinor;
        },
    }
    proof {
        assert(reg@ == family_reg_setup(old(reg)@, family));
        assert(sep == family_sep(family));
        assert(scheme == family_scheme(family));
    }
    let details = match convert_pairs_to_details(family, names, amis, reg, sep) {
        Ok(d) => d,
        Err(e) => {
            return Err(e);
        },
    };
    let filter = match family {
        OperatingSystem::Amazon => create_preferred_filter_for_amazon(&details, reg),
        OperatingSystem::Debian => create_preferred_filter_for_debian(&details, reg),
        _ => create_preferred_filter_for_ubuntu(&details, reg),
    };
    let filter = match filter {
        Ok(f) => f,
        Err(e) => {
            return Err(e);
        },
    };
    let ghost sorted = detail_views(details@);
    proof {
        match best_version(detail_names(sorted), scheme, detail_names(sorted).len() as int) {
            None => {
                lemma_filter_or_empty(sorted, filter);
            },
            Some(b) => {
                let built = spec_build_pref(
                    spec_convert(
                        family_reg_setup(old(reg)@, family),
                        family,
                        names_v,
                        amis_v,
                        sep,
                    ).0,
                    b.1,
                    family_quals(family),
                );
                lemma_filter_or_two(sorted, filter, built.1, built.2, built.3);
            },
        }
    }
    let section = AmiDetailsWithFilter::new(details, filter);
    Ok(section.into_filtered())
}


/// A filter that accepts everything keeps every candidate.
proof fn lemma_filter_always(s: Seq<DetailView>, f: Filter)
    requires
        f is AlwaysTrue,
    ensures
        spec_filter_details(s, f) == s,
    decreases s.len(),
{
    if s.len() > 0 {
        lemma_filter_always(s.drop_last(), f);
        assert(spec_filter_details(s, f) =~= s);
    }
}

/// A single mask-equals-value filter keeps exactly the candidates
/// carrying its word.
proof fn lemma_filter_mev(s: Seq<DetailView>, f: Filter, mask: u128, value: u128)
    requires
        f == (Filter::MaskEqualsValue { mask, value }),
    ensures
        spec_filter_details(s, f) == filter_mev1(s, mask, value),
    decreases s.len(),
{
    if s.len() > 0 {
        lemma_filter_mev(s.drop_last(), f, mask, value);
    }
}

/// The candidates of `v` that the filter accepts, in order.
#[verifier::loop_isolation(false)]
fn filter_by(filter: &Filter, v: Vec<AmiDetail>) -> (r: Vec<AmiDetail>)
    ensures
        detail_views(r@) == spec_filter_details(detail_views(v@), *filter),
{
    let ghost orig = detail_views(v@);
    let mut rest = v;
    let total = rest.len();
    let mut res: Vec<AmiDetail> = Vec::new();
    let mut i: usize = 0;
    proof {
        assert(detail_views(res@) =~= spec_filter_details(orig.take(0), *filter));
        assert(detail_views(rest@) =~= orig.skip(0));
    }
    while rest.len() > 0
        invariant
            0 <= i <= total,
            i + rest@.len() == total == orig.len(),
            detail_views(rest@) == orig.skip(i as int),
            detail_views(res@) == spec_filter_details(orig.take(i as int), *filter),
        decreases rest@.len(),
    {
        let ghost prev = rest@;
        let x = rest.remove(0);
        proof {
            assert forall|k: int| 0 <= k < prev.len() implies prev[k]@ == orig[i + k] by {
                assert(detail_views(prev)[k] == prev[k]@);
                assert(orig.skip(i as int)[k] == orig[i + k]);
            }
            assert(x@ == orig[i as int]);
            assert(detail_views(rest@) =~= orig.skip(i + 1));
            assert(orig.take(i + 1).drop_last() =~= orig.take(i as int));
            assert(orig.take(i + 1).last() == orig[i as int]);
        }
        let ghost before = detail_views(res@);
        if filter.matches(x.bitmask) {
            res.push(x);
            proof {
                assert(detail_views(res@) =~= before.push(orig[i as int]));
                assert(detail_views(res@) =~= spec_filter_details(orig.take(i + 1), *filter));
            }
        } else {
            proof {
                assert(detail_views(res@) =~= spec_filter_details(orig.take(i + 1), *filter));
            }
        }
        i = i + 1;
    }
    proof {
        assert(orig.take(orig.len() as int) =~= orig);
    }
    res
}

/// The registry a run starts from: nothing registered, nothing
/// combining, no aliases, and an ignore rule that skips nothing.
pub open spec fn empty_reg() -> RegView {
    RegView {
        names: Seq::empty(),
        combining: Seq::empty(),
        aliases: Seq::empty(),
        ignore: IgnoreRule::Never,
    }
}

/// One family's pass when its pairs were fetched; a family that was not
/// asked for contributes nothing and leaves the registry alone.
pub open spec fn pass_opt(
    r: RegView,
    family: OperatingSystem,
    input: Option<(Seq<Seq<char>>, Seq<Seq<char>>)>,
) -> Result<(RegView, Seq<DetailView>), SelectError> {
    match input {
        None => Ok((r, Seq::empty())),
        Some(p) => spec_family(r, family, p.0, p.1),
    }
}

/// The whole selection run: the one alias is declared, each requested
/// family runs its pass over one shared registry, the global
/// architecture filter narrows the concatenation, and a single-result
/// demand that the final count violates is an error, never an arbitrary
/// pick.
pub open spec fn spec_select(
    arch: Architecture,
    only_one: bool,
    amazon: Option<(Seq<Seq<char>>, Seq<Seq<char>>)>,
    debian: Option<(Seq<Seq<char>>, Seq<Seq<char>>)>,
    ubuntu: Option<(Seq<Seq<char>>, Seq<Seq<char>>)>,
) -> Result<Seq<DetailView>, SelectError> {
    let r1 = spec_alias(empty_reg(), "x86_64"@, "amd64"@);
    match pass_opt(r1, OperatingSystem::Amazon, amazon) {
        Err(e) => Err(e),
        Ok(am) => match pass_opt(am.0, OperatingSystem::Debian, debian) {
            Err(e) => Err(e),
            Ok(de) => match pass_opt(de.0, OperatingSystem::Ubuntu, ubuntu) {
                Err(e) => Err(e),
                Ok(ub) => {
                    let survivors = if arch == Architecture::All {
                        Ok(am.1 + de.1 + ub.1)
                    } else {
                        let mrun = spec_encode_seq(ub.0, seq!["amd64"@, "arm64"@]);
                        let vrun = spec_encode_seq(mrun.0, seq![spec_arch_token(arch)]);
                        if spec_encode_seq_ok(ub.0, seq!["amd64"@, "arm64"@])
                            && spec_encode_seq_ok(mrun.0, seq![spec_arch_token(arch)]) {
                            Ok(
                                filter_mev1(am.1, mrun.1, vrun.1) + filter_mev1(de.1, mrun.1, vrun.1)
                                    + filter_mev1(ub.1, mrun.1, vrun.1),
                            )
                        } else {
                            Err(SelectError::ConfigurationExhausted)
                        }
                    };
                    match survivors {
                        Err(e) => Err(e),
                        Ok(s) => if only_one && s.len() != 1 {
                            Err(SelectError::SelectionCardinality)
                        } else {
                            Ok(s)
                        },
                    }
                },
            },
        },
    }
}

/// The views of one fetched input.
pub open spec fn pairs_views(p: Option<(Vec<String>, Vec<String>)>) -> Option<
    (Seq<Seq<char>>, Seq<Seq<char>>),
> {
    match p {
        None => None,
        Some(q) => Some((seq_views(q.0@), seq_views(q.1@))),
    }
}

/// Selects the preferred machine images over the fetched families: each
/// requested family is narrowed to its newest, correctly-qualified
/// candidates per architecture; the global architecture filter is then
/// applied across all families; and a caller demanding exactly one
/// result gets an error when the count differs.
#[verifier::loop_isolation(false)]
pub fn select_details(
    options: &SelectOptions,
    amazon_pairs: Option<(Vec<String>, Vec<String>)>,
    debian_pairs: Option<(Vec<String>, Vec<String>)>,
    ubuntu_pairs: Option<(Vec<String>, Vec<String>)>,
) -> (r: Result<Vec<AmiDetail>, SelectError>)
    requires
        (amazon_pairs is Some) == (options.operating_system == OperatingSystem::All
            || options.operating_system == OperatingSystem::Amazon),
        (debian_pairs is Some) == (options.operating_system == OperatingSystem::All
            || options.operating_system == OperatingSystem::Debian),
        (ubuntu_pairs is Some) == (options.operating_system == OperatingSystem::All
            || options.operating_system == OperatingSystem::Ubuntu),
        amazon_pairs is Some ==> (amazon_pairs->0).0@.len() == (amazon_pairs->0).1@.len(),
        debian_pairs is Some ==> (debian_pairs->0).0@.len() == (debian_pairs->0).1@.len(),
        ubuntu_pairs is Some ==> (ubuntu_pairs->0).0@.len() == (ubuntu_pairs->0).1@.len(),
    ensures
        ({
            let outcome = spec_select(
                options.architecture,
                options.singleton || options.smoke_test,
                pairs_views(amazon_pairs),
                pairs_views(debian_pairs),
                pairs_views(ubuntu_pairs),
            );
            match r {
                Ok(v) => outcome is Ok && detail_views(v@) == outcome->Ok_0,
                Err(e) => outcome is Err && e == outcome->Err_0,
            }
        }),
        (options.singleton || options.smoke_test) && r is Ok ==> r->Ok_0@.len() == 1,
{
    let ghost am_v = pairs_views(amazon_pairs);
    let ghost de_v = pairs_views(debian_pairs);
    let ghost ub_v = pairs_views(ubuntu_pairs);
    let mut reg = StringsToBitmask::new();
    proof {
        assert(reg@ =~~= empty_reg());
    }
    match reg.alias("x86_64", "amd64") {
        Ok(_) => (),
        Err(_) => {
            proof {
                assert(spec_alias_ok(empty_reg(), "x86_64"@, "amd64"@));
                assert(false);
            }
            return Err(SelectError::ConfigurationExhausted);
        },
    }
    let am_kept: Vec<AmiDetail> = match amazon_pairs {
        Some((n, a)) => match process_family(OperatingSystem::Amazon, n, a, &mut reg) {
            Ok(v) => v,
            Err(e) => {
                return Err(e);
            },
        },
        None => Vec::new(),
    };
    let de_kept: Vec<AmiDetail> = match debian_pairs {
        Some((n, a)) => match process_family(OperatingSystem::Debian, n, a, &mut reg) {
            Ok(v) => v,
            Err(e) => {
                return Err(e);
            },
        },
        None => Vec::new(),
    };
    let ub_kept: Vec<AmiDetail> = match ubuntu_pairs {
        Some((n, a)) => match process_family(OperatingSystem::Ubuntu, n, a, &mut reg) {
            Ok(v) => v,
            Err(e) => {
                return Err(e);
            },
        },
        None => Vec::new(),
    };
    proof {
        assert(detail_views(Seq::<AmiDetail>::empty()) =~= Seq::<DetailView>::empty());
    }

    let arch_filter: Filter = match options.architecture {
        Architecture::All => Filter::AlwaysTrue,
        _ => {
            let mut arch_toks: Vec<String> = Vec::new();
            arch_toks.push(String::from_str("amd64"));
            arch_toks.push(String::from_str("arm64"));
            proof {
                assert(seq_views(arch_toks@) =~= seq!["amd64"@, "arm64"@]);
            }
            let mask = match reg.bitmask_from(&arch_toks) {
                Ok(w) => w,
                Err(e) => {
                    return Err(e);
                },
            };
            let mut val_toks: Vec<String> = Vec::new();
            val_toks.push(String::from_str(options.architecture.token()));
            proof {
                assert(seq_views(val_toks@) =~= seq![spec_arch_token(options.architecture)]);
            }
            let value = match reg.bitmask_from(&val_toks) {
                Ok(w) => w,
                Err(e) => {
                    return Err(e);
                },
            };
            Filter::MaskEqualsValue { mask, value }
        },
    };

    let ghost am_s = detail_views(am_kept@);
    let ghost de_s = detail_views(de_kept@);
    let ghost ub_s = detail_views(ub_kept@);
    proof {
        match arch_filter {
            Filter::AlwaysTrue => {
                lemma_filter_always(am_s, arch_filter);
                lemma_filter_always(de_s, arch_filter);
                lemma_filter_always(ub_s, arch_filter);
            },
            Filter::MaskEqualsValue { mask, value } => {
                lemma_filter_mev(am_s, arch_filter, mask, value);
                lemma_filter_mev(de_s, arch_filter, mask, value);
                lemma_filter_mev(ub_s, arch_filter, mask, value);
            },
            _ => {},
        }
    }
    let mut out = filter_by(&arch_filter, am_kept);
    let mut de_f = filter_by(&arch_filter, de_kept);
    let mut ub_f = filter_by(&arch_filter, ub_kept);
    out.append(&mut de_f);
    out.append(&mut ub_f);
    proof {
        assert forall|k: int| 0 <= k < out@.len() implies detail_views(out@)[k] == (
        spec_filter_details(am_s, arch_filter) + spec_filter_details(de_s, arch_filter)
            + spec_filter_details(ub_s, arch_filter))[k] by {
            assert(detail_views(out@)[k] == out@[k]@);
        }
        assert(detail_views(out@) =~= spec_filter_details(am_s, arch_filter) + spec_filter_details(
            de_s,
            arch_filter,
        ) + spec_filter_details(ub_s, arch_filter));
    }

    if options.can_only_be_one() && out.len() != 1 {
        return Err(SelectError::SelectionCardinality);
    }
    Ok(out)
}


/// The greatest of `w` and the first `n` values.
pub open spec fn max_fold(vals: Seq<int>, w: int, n: int) -> int
    decreases n,
{
    if n <= 0 {
        w
    } else {
        let p = max_fold(vals, w, n - 1);
        if vals[n - 1] > p {
            vals[n - 1]
        } else {
            p
        }
    }
}

/// Column widths for rendering candidates: wide enough for the headers
/// by default, and grown to fit the widest entry of each column.
pub struct DetailsReporter {
    pub os_width: usize,
    pub name_width: usize,
    pub ami_width: usize,
}

impl DetailsReporter {
    /// The default column widths.
    pub fn new() -> (r: Self)
        ensures
            r.os_width == 12,
            r.name_width == 30,
            r.ami_width == 21,
    {
        DetailsReporter { os_width: 12, name_width: 30, ami_width: 21 }
    }

    /// Grows each column to the widest entry it must hold.
    #[verifier::loop_isolation(false)]
    pub fn update_column_widths(&mut self, details: &Vec<AmiDetail>)
        ensures
            final(self).os_width == max_fold(
                Seq::new(details@.len(), |i: int| spec_os_text(details@[i]@.operating_system).len() as int),
                old(self).os_width as int,
                details@.len() as int,
            ),
            final(self).name_width == max_fold(
                Seq::new(details@.len(), |i: int| details@[i]@.name.len() as int),
                old(self).name_width as int,
                details@.len() as int,
            ),
            final(self).ami_width == max_fold(
                Seq::new(details@.len(), |i: int| details@[i]@.ami.len() as int),
                old(self).ami_width as int,
                details@.len() as int,
            ),
    {
        let ghost os_vals = Seq::new(
            details@.len(),
            |i: int| spec_os_text(details@[i]@.operating_system).len() as int,
        );
        let ghost name_vals = Seq::new(details@.len(), |i: int| details@[i]@.name.len() as int);
        let ghost ami_vals = Seq::new(details@.len(), |i: int| details@[i]@.ami.len() as int);
        let mut os_width = self.os_width;
        let mut name_width = self.name_width;
        let mut ami_width = self.ami_width;
        let n = details.len();
        let mut i: usize = 0;
        while i < n
            invariant
                0 <= i <= n == details@.len(),
                os_width == max_fold(os_vals, old(self).os_width as int, i as int),
                name_width == max_fold(name_vals, old(self).name_width as int, i as int),
                ami_width == max_fold(ami_vals, old(self).ami_width as int, i as int),
            decreases n - i,
        {
            let w = details[i].operating_system.text_width();
            if w > os_width {
                os_width = w;
            }
            let w = details[i].name.as_str().unicode_len();
            if w > name_width {
                name_width = w;
            }
            let w = details[i].ami.as_str().unicode_len();
            if w > ami_width {
                ami_width = w;
            }
            i = i + 1;
        }
        self.os_width = os_width;
        self.name_width = name_width;
        self.ami_width = ami_width;
    }
}

} // verus!

use ami_helper::candidate::{Architecture, OperatingSystem, SelectOptions};
use ami_helper::errors::SelectError;
use ami_helper::pipeline::{convert_pairs_to_details, select_details, DetailsReporter};
use ami_helper::registry::StringsToBitmask;
use ami_helper::candidate::AmiDetail;

fn options(os: OperatingSystem, arch: Architecture, singleton: bool) -> SelectOptions {
    SelectOptions {
        operating_system: os,
        architecture: arch,
        singleton,
        just_ami: false,
        smoke_test: false,
        region: String::from("us-east-2"),
    }
}

fn amazon_pairs() -> (Vec<String>, Vec<String>) {
    let base = "/aws/service/ami-amazon-linux-latest/";
    let names = vec![
        format!("{}al2023-ami-minimal-kernel-default-x86_64", base),
        format!("{}al2023-ami-minimal-kernel-default-arm64", base),
        format!("{}al2022-ami-minimal-kernel-default-x86_64", base),
    ];
    let amis = vec![
        String::from("ami-amd"),
        String::from("ami-arm"),
        String::from("ami-old"),
    ];
    (names, amis)
}

#[test]
fn amazon_preferred_label_keeps_both_architectures() {
    let opts = options(OperatingSystem::Amazon, Architecture::All, false);
    let (names, amis) = amazon_pairs();
    let out = select_details(&opts, Some((names, amis)), None, None).unwrap();
    assert_eq!(out.len(), 2);
    // Sorted by name: the arm64 row precedes the x86_64 row.
    assert_eq!(out[0].name, "al2023-ami-minimal-kernel-default-arm64");
    assert_eq!(out[0].ami, "ami-arm");
    assert_eq!(out[1].name, "al2023-ami-minimal-kernel-default-x86_64");
    assert_eq!(out[1].ami, "ami-amd");
    assert!(out.iter().all(|d| d.operating_system == OperatingSystem::Amazon));
}

#[test]
fn amazon_x86_64_resolves_via_alias_to_amd64() {
    // Asking for amd64 must keep the x86_64-named row through the alias.
    let opts = options(OperatingSystem::Amazon, Architecture::Amd64, false);
    let (names, amis) = amazon_pairs();
    let out = select_details(&opts, Some((names, amis)), None, None).unwrap();
    assert_eq!(out.len(), 1);
    assert_eq!(out[0].ami, "ami-amd");
}

fn debian_pairs() -> (Vec<String>, Vec<String>) {
    let base = "/aws/service/debian/release/";
    let names = vec![
        format!("{}11/latest/amd64", base),
        format!("{}11/latest/arm64", base),
        format!("{}12/latest/amd64", base),
    ];
    let amis = vec![
        String::from("ami-11-amd"),
        String::from("ami-11-arm"),
        String::from("ami-12-amd"),
    ];
    (names, amis)
}

#[test]
fn debian_newest_version_never_falls_back() {
    // No arm64 build of version 12 exists: exactly one candidate must
    // survive, not an older arm64 fallback.
    let opts = options(OperatingSystem::Debian, Architecture::All, false);
    let (names, amis) = debian_pairs();
    let out = select_details(&opts, None, Some((names, amis)), None).unwrap();
    assert_eq!(out.len(), 1);
    assert_eq!(out[0].name, "12/latest/amd64");
    assert_eq!(out[0].ami, "ami-12-amd");
}

#[test]
fn singleton_with_two_results_is_a_cardinality_error() {
    let base = "/aws/service/debian/release/";
    let names = vec![
        format!("{}11/latest/amd64", base),
        format!("{}11/latest/arm64", base),
    ];
    let amis = vec![String::from("ami-a"), String::from("ami-b")];
    let opts = options(OperatingSystem::Debian, Architecture::All, true);
    let r = select_details(&opts, None, Some((names, amis)), None);
    assert_eq!(r.unwrap_err(), SelectError::SelectionCardinality);
}

#[test]
fn singleton_with_one_result_passes() {
    let opts = options(OperatingSystem::Debian, Architecture::All, true);
    let (names, amis) = debian_pairs();
    let out = select_details(&opts, None, Some((names, amis)), None).unwrap();
    assert_eq!(out.len(), 1);
}

#[test]
fn ubuntu_dotted_versions_weigh_major_before_minor() {
    let base = "/aws/service/canonical/ubuntu/server/";
    let names = vec![
        format!("{}22.04/stable/current/amd64", base),
        format!("{}24.04/stable/current/amd64", base),
        format!("{}24.04/stable/current/arm64", base),
    ];
    let amis = vec![
        String::from("ami-2204"),
        String::from("ami-2404-amd"),
        String::from("ami-2404-arm"),
    ];
    let opts = options(OperatingSystem::Ubuntu, Architecture::All, false);
    let out = select_details(&opts, None, None, Some((names, amis))).unwrap();
    assert_eq!(out.len(), 2);
    assert!(out.iter().all(|d| d.name.starts_with("24.04/")));
}

#[test]
fn ubuntu_date_revision_segments_are_ignored() {
    // Distinct date.revision path segments are skipped: they take no
    // bits and never spoil the newest-version selection.
    let base = "/aws/service/canonical/ubuntu/server/";
    let names = vec![
        format!("{}24.04/stable/current/20240105.1/amd64", base),
        format!("{}24.04/stable/current/20240106.1/arm64", base),
        format!("{}22.04/stable/current/20240101.1/amd64", base),
    ];
    let amis = vec![
        String::from("ami-amd"),
        String::from("ami-arm"),
        String::from("ami-old"),
    ];
    let opts = options(OperatingSystem::Ubuntu, Architecture::All, false);
    let out = select_details(&opts, None, None, Some((names, amis))).unwrap();
    assert_eq!(out.len(), 2);
    assert!(out.iter().all(|d| d.name.starts_with("24.04/")));
}

#[test]
fn families_combine_and_order_by_family_rank() {
    let opts = options(OperatingSystem::All, Architecture::All, false);
    let (an, aa) = amazon_pairs();
    let (dn, da) = debian_pairs();
    let base = "/aws/service/canonical/ubuntu/server/";
    let un = vec![format!("{}24.04/stable/current/amd64", base)];
    let ua = vec![String::from("ami-u")];
    let out = select_details(&opts, Some((an, aa)), Some((dn, da)), Some((un, ua))).unwrap();
    // A one-name family's common prefix is the whole name, so its single
    // candidate keeps an empty display name and survives its vacuous
    // filter.
    assert_eq!(out.len(), 4);
    assert_eq!(out[3].name, "");
    assert_eq!(out[0].operating_system, OperatingSystem::Amazon);
    assert_eq!(out[1].operating_system, OperatingSystem::Amazon);
    assert_eq!(out[2].operating_system, OperatingSystem::Debian);
    assert_eq!(out[3].operating_system, OperatingSystem::Ubuntu);
}

#[test]
fn architecture_filter_spans_families() {
    let opts = options(OperatingSystem::All, Architecture::Arm64, false);
    let (an, aa) = amazon_pairs();
    let (dn, da) = debian_pairs();
    let base = "/aws/service/canonical/ubuntu/server/";
    let un = vec![
        format!("{}24.04/stable/current/amd64", base),
        format!("{}24.04/stable/current/arm64", base),
    ];
    let ua = vec![String::from("ami-u-amd"), String::from("ami-u-arm")];
    let out = select_details(&opts, Some((an, aa)), Some((dn, da)), Some((un, ua))).unwrap();
    // Amazon keeps its arm64 row, Debian 12 has no arm64 build, Ubuntu
    // keeps its arm64 row.
    assert_eq!(out.len(), 2);
    assert_eq!(out[0].ami, "ami-arm");
    assert_eq!(out[1].ami, "ami-u-arm");
}

#[test]
fn no_version_in_sight_keeps_every_candidate() {
    let base = "/aws/service/debian/release/";
    let names = vec![
        format!("{}stretch/latest/amd64", base),
        format!("{}buster/latest/arm64", base),
    ];
    let amis = vec![String::from("ami-a"), String::from("ami-b")];
    let opts = options(OperatingSystem::Debian, Architecture::All, false);
    let out = select_details(&opts, None, Some((names, amis)), None).unwrap();
    assert_eq!(out.len(), 2);
}

#[test]
fn version_overflow_is_a_parse_defect() {
    let base = "/aws/service/debian/release/";
    let names = vec![
        format!("{}99999999999999999999999999/latest/amd64", base),
        format!("{}11/latest/amd64", base),
    ];
    let amis = vec![String::from("ami-a"), String::from("ami-b")];
    let opts = options(OperatingSystem::Debian, Architecture::All, false);
    let r = select_details(&opts, None, Some((names, amis)), None);
    assert_eq!(r.unwrap_err(), SelectError::VersionParseAmbiguous);
}

#[test]
fn prefix_mismatch_is_reported() {
    // The second name is a strict prefix of the first, so the computed
    // common prefix is not a literal prefix of it.
    let names = vec![String::from("abc/def"), String::from("abc")];
    let amis = vec![String::from("x"), String::from("y")];
    let mut reg = StringsToBitmask::new();
    let r = convert_pairs_to_details(
        OperatingSystem::Debian,
        names,
        amis,
        &mut reg,
        '/',
    );
    assert_eq!(r.unwrap_err(), SelectError::PrefixMismatch);
}

#[test]
fn converted_candidates_come_out_sorted() {
    let names = vec![
        String::from("p/zeta"),
        String::from("p/alpha"),
        String::from("p/mid"),
    ];
    let amis = vec![String::from("3"), String::from("1"), String::from("2")];
    let mut reg = StringsToBitmask::new();
    let out = convert_pairs_to_details(
        OperatingSystem::Debian,
        names,
        amis,
        &mut reg,
        '/',
    )
    .unwrap();
    let got: Vec<&str> = out.iter().map(|d| d.name.as_str()).collect();
    assert_eq!(got, vec!["alpha", "mid", "zeta"]);
}

#[test]
fn reporter_grows_columns_to_fit() {
    let details = vec![AmiDetail {
        operating_system: OperatingSystem::Amazon,
        name: String::from("a-very-long-name-wider-than-thirty-chars"),
        ami: String::from("ami-123"),
        bitmask: 0,
    }];
    let mut rep = DetailsReporter::new();
    assert_eq!((rep.os_width, rep.name_width, rep.ami_width), (12, 30, 21));
    rep.update_column_widths(&details);
    assert_eq!(rep.os_width, 12);
    assert_eq!(rep.name_width, 40);
    assert_eq!(rep.ami_width, 21);
}

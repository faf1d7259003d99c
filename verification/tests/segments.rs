use ami_helper::errors::SelectError;
use ami_helper::registry::{IgnoreRule, StringsToBitmask, StringsToBitmaskBuilder};

#[test]
fn encode_is_idempotent() {
    let mut reg = StringsToBitmask::new();
    let first = reg.insert("minimal").unwrap();
    let again = reg.insert("minimal").unwrap();
    assert_eq!(first, again);
    assert_ne!(first, 0);
}

#[test]
fn bits_are_assigned_in_first_seen_order() {
    let mut reg = StringsToBitmask::new();
    assert_eq!(reg.insert("a").unwrap(), 1);
    assert_eq!(reg.insert("b").unwrap(), 2);
    assert_eq!(reg.insert("c").unwrap(), 4);
    assert_eq!(reg.insert("b").unwrap(), 2);
}

#[test]
fn alias_is_one_directional() {
    let mut reg = StringsToBitmask::new();
    reg.alias("x86_64", "amd64").unwrap();
    // Declaration order assigns bit 0 to the key and bit 1 to the alias.
    let key_word = reg.insert("x86_64").unwrap();
    let alias_word = reg.insert("amd64").unwrap();
    assert_eq!(alias_word, 0b10);
    assert_eq!(key_word, 0b11);
    // The key's word carries the alias's bit...
    assert_ne!(key_word & alias_word, 0);
    // ...but the alias's word never carries the key's bit.
    assert_eq!(alias_word & 0b01, 0);
}

#[test]
fn combining_segment_joins_its_successor() {
    let mut reg = StringsToBitmask::new();
    reg.combining("kernel");
    let joined = reg
        .bitmask_from(&vec![String::from("kernel"), String::from("default")])
        .unwrap();
    let direct = reg.bitmask_from(&vec![String::from("kernel-default")]).unwrap();
    assert_eq!(joined, direct);
    // Neither bare half was registered by the joined run.
    let kernel_alone = reg.insert("default").unwrap();
    assert_ne!(kernel_alone, direct);
}

#[test]
fn pending_combining_segment_is_flushed_alone() {
    let mut reg = StringsToBitmask::new();
    reg.combining("kernel");
    let flushed = reg.bitmask_from(&vec![String::from("kernel")]).unwrap();
    reg.clear_combining();
    let plain = reg.bitmask_from(&vec![String::from("kernel")]).unwrap();
    assert_eq!(flushed, plain);
    assert_ne!(flushed, 0);
}

#[test]
fn clear_combining_stops_joining() {
    let mut reg = StringsToBitmask::new();
    reg.combining("kernel");
    reg.clear_combining();
    let separate = reg
        .bitmask_from(&vec![String::from("kernel"), String::from("default")])
        .unwrap();
    let joined = reg.bitmask_from(&vec![String::from("kernel-default")]).unwrap();
    assert_ne!(separate, joined);
    assert_eq!(separate.count_ones(), 2);
}

#[test]
fn date_serial_segments_are_skipped() {
    let mut reg = StringsToBitmask::new();
    reg.ignore(IgnoreRule::DateSerial);
    assert!(reg.ignores("20240101-5"));
    assert!(!reg.ignores("20240101"));
    assert!(!reg.ignores("2024-5"));
    assert_eq!(reg.insert("20240101-5").unwrap(), 0);
    assert_ne!(reg.insert("buster").unwrap(), 0);
}

#[test]
fn date_revision_segments_are_skipped() {
    let mut reg = StringsToBitmask::new();
    reg.ignore(IgnoreRule::DateRevision);
    assert!(reg.ignores("20240101"));
    assert!(reg.ignores("20240101.12"));
    assert!(!reg.ignores("20240101-1"));
    assert!(!reg.ignores("2024.1"));
    assert_eq!(reg.insert("20240101.12").unwrap(), 0);
}

#[test]
fn clear_ignore_restores_registration() {
    let mut reg = StringsToBitmask::new();
    reg.ignore(IgnoreRule::DateRevision);
    assert_eq!(reg.insert("20240101").unwrap(), 0);
    reg.clear_ignore();
    assert_ne!(reg.insert("20240101").unwrap(), 0);
}

#[test]
fn ignore_rules_agree_with_their_patterns() {
    let serial = regex::Regex::new(r"^\d{8}-\d+$").unwrap();
    let revision = regex::Regex::new(r"^\d{8}(?:[.]\d+)?$").unwrap();
    let mut with_serial = StringsToBitmask::new();
    with_serial.ignore(IgnoreRule::DateSerial);
    let mut with_revision = StringsToBitmask::new();
    with_revision.ignore(IgnoreRule::DateRevision);
    let samples = [
        "20240101-5",
        "20240101-",
        "20240101",
        "20240101.12",
        "20240101.",
        "2024",
        "2024010a",
        "202401011",
        "kernel-default",
        "",
        "12345678-0",
        "12345678.0",
    ];
    for s in samples {
        assert_eq!(with_serial.ignores(s), serial.is_match(s), "serial: {}", s);
        assert_eq!(with_revision.ignores(s), revision.is_match(s), "revision: {}", s);
    }
}

#[test]
fn bit_width_exhaustion_is_an_error() {
    let mut reg = StringsToBitmask::new();
    for i in 0..128 {
        assert!(reg.insert(&format!("segment{}", i)).is_ok());
    }
    assert_eq!(
        reg.insert("one-too-many").unwrap_err(),
        SelectError::ConfigurationExhausted
    );
    // Already-registered segments still encode after exhaustion.
    assert_eq!(reg.insert("segment0").unwrap(), 1);
}

#[test]
fn builder_gathers_bits_across_updates() {
    let mut reg = StringsToBitmask::new();
    let mut builder = StringsToBitmaskBuilder::new();
    builder.update_one(&mut reg, "alpha").unwrap();
    builder
        .update(&mut reg, &vec![String::from("beta"), String::from("gamma")])
        .unwrap();
    let word = builder.inner(&mut reg).unwrap();
    assert_eq!(word, 0b111);
}

use ets::file_exclude::FileExclude;
use ets::file_utils::{filter_candidates, find_exclude, hash_file, hash_input, is_whole_file_excluded, to_hex, Scan};

const EMPTY_SHA512: &str = "cf83e1357eefb8bdf1542850d66d8007d620e4050b5715dc83f4a921d36ce9ce47d0d13c5d85f2b0ff8318d2877eec2f63b931bd47417a81a538327af927da3e";
const ABC_LINE_SHA512: &str = "4f285d0c0cc77286d8731798b7aae2639e28270d4166f40d769cbbdca5230714d848483d364e2f39fe6cb9083c15229b39a33615ebc6d57605f7c43f6906739d";
const BINARY_SHA512: &str = "0c9b0e9061f3949cb4e2943f570ab04257f015271df16c952b97ef0dad1d027461c07e4a20f95882f80e4a3aeb81d0c18403848d76aecb98a756d24cabe32afc";
const A_B_LINES_SHA512: &str = "a10ae0008f11be0760dd55ac8236209da415d12a6208f8e2c340e41db45685b429868b2325f2bdd7334c3297253aca7475379943d7cf004941553aa734ac839e";

fn rule(directive: &str) -> FileExclude {
    FileExclude::new(directive.to_string()).unwrap()
}

#[test]
pub fn test_hash_file_none() {
    let hash1 = hash_file("\n".as_bytes(), None);
    let hash2 = hash_file("\n\n".as_bytes(), None);
    assert_ne!(hash1, hash2);
}

#[test]
fn same_content_same_digest() {
    let content = b"alpha\nbeta\n";
    assert_eq!(hash_file(content, None), hash_file(content, None));
}

#[test]
fn digest_is_lowercase_hex_sha512_of_the_lines() {
    assert_eq!(hash_file(b"abc", None), ABC_LINE_SHA512);
    assert_eq!(hash_file(b"abc\n", None), ABC_LINE_SHA512);
    assert_eq!(hash_file(b"", None), EMPTY_SHA512);
    assert_eq!(hash_file(b"a\r\nb", None), A_B_LINES_SHA512);
    let digest = hash_file(b"\x00\x01 binary \xff", None);
    assert_eq!(digest.len(), 128);
    assert!(digest.chars().all(|c| c.is_ascii_digit() || ('a'..='f').contains(&c)));
}

#[test]
fn binary_content_is_hashed_raw() {
    let content = b"\xff\xfeabc\n";
    assert_eq!(hash_file(content, None), BINARY_SHA512);
    let lines = rule("f:1");
    assert_eq!(hash_file(content, Some(&lines)), BINARY_SHA512);
    let whole = rule("f");
    assert_eq!(hash_file(content, Some(&whole)), BINARY_SHA512);
    assert_eq!(hash_input(content, false, Some(&lines)), content.to_vec());
}

#[test]
fn excluded_lines_do_not_change_the_digest() {
    let r = rule("data.txt:2,4-5");
    let unchanged = b"one\ntwo\nthree\nfour\nfive\nsix\n";
    let line2_changed = b"one\nTWO!\nthree\nfour\nfive\nsix\n";
    let line5_changed = b"one\ntwo\nthree\nfour\nFIVE\nsix\n";
    let line1_changed = b"ONE\ntwo\nthree\nfour\nfive\nsix\n";
    let line6_changed = b"one\ntwo\nthree\nfour\nfive\nSIX\n";
    let base = hash_file(unchanged, Some(&r));
    assert_eq!(hash_file(line2_changed, Some(&r)), base);
    assert_eq!(hash_file(line5_changed, Some(&r)), base);
    assert_ne!(hash_file(line1_changed, Some(&r)), base);
    assert_ne!(hash_file(line6_changed, Some(&r)), base);
    assert_eq!(hash_input(unchanged, true, Some(&r)), b"one\nthree\nsix\n".to_vec());
}

#[test]
fn whole_file_rule_excludes_every_line() {
    let r = rule("/tmp/test");
    assert_eq!(hash_input(b"test", true, Some(&r)), Vec::<u8>::new());
    assert_eq!(hash_file(b"hello world", Some(&r)), EMPTY_SHA512);
}

#[test]
fn hash_input_keeps_lines_and_terminators() {
    assert_eq!(hash_input(b"a\r\nb", true, None), b"a\nb\n".to_vec());
    assert_eq!(hash_input(b"a\rb\r", true, None), b"a\rb\r\n".to_vec());
    assert_eq!(hash_input(b"\n\n", true, None), b"\n\n".to_vec());
    assert_eq!(hash_input(b"", true, None), Vec::<u8>::new());
    assert_eq!(hash_input(b"x\r\n\r\n", true, None), b"x\n\n".to_vec());
}

#[test]
fn hex_encoding() {
    assert_eq!(to_hex(&[0x00, 0x0f, 0xa5, 0xff]), "000fa5ff");
    assert_eq!(to_hex(&[]), "");
}

#[test]
fn whole_file_rules_filter_candidates() {
    let rules = vec![rule("/tmp/test"), rule("*.log:1-3"), rule("/var/*")];
    let paths = vec![
        "/tmp/test".to_string(),
        "/etc/a.log".to_string(),
        "/var/x".to_string(),
        "/etc/passwd".to_string(),
    ];
    assert!(is_whole_file_excluded(&rules, "/tmp/test"));
    assert!(!is_whole_file_excluded(&rules, "/etc/a.log"));
    assert_eq!(
        filter_candidates(paths, &rules),
        vec!["/etc/a.log".to_string(), "/etc/passwd".to_string()]
    );
}

#[test]
fn first_matching_rule_applies() {
    let rules = vec![rule("*.txt:1"), rule("a.txt:2"), rule("b*")];
    let first = find_exclude(&rules, "a.txt").unwrap();
    assert!(first.in_lines(1));
    assert!(!first.in_lines(2));
    let third = find_exclude(&rules, "b.rs").unwrap();
    assert!(!third.has_lines());
    assert!(find_exclude(&rules, "c.rs").is_none());
}

#[test]
fn whole_file_excluded_path_never_gets_a_digest() {
    let rules = vec![rule("/tmp/test")];
    let mut scan = Scan::new();
    scan.add_file(&rules, "/tmp/test".to_string(), Ok(b"test".to_vec()));
    scan.add_file(&rules, "/tmp/test".to_string(), Ok(b"hello world".to_vec()));
    assert!(scan.hashes.get(&"/tmp/test".to_string()).is_none());
    assert!(scan.errors.get(&"/tmp/test".to_string()).is_none());
    assert!(scan.hashes.entries().is_empty());
}

#[test]
fn rule_with_empty_line_spec_skips_the_file() {
    let rules = vec![rule("/tmp/test:")];
    let mut scan = Scan::new();
    scan.add_file(&rules, "/tmp/test".to_string(), Ok(b"test".to_vec()));
    scan.add_file(&rules, "/tmp/test".to_string(), Err("Opening /tmp/test".to_string()));
    assert!(scan.hashes.entries().is_empty());
    assert!(scan.errors.entries().is_empty());
    scan.add_file(&rules, "/tmp/other".to_string(), Ok(b"abc".to_vec()));
    assert_eq!(scan.hashes.get(&"/tmp/other".to_string()).unwrap(), ABC_LINE_SHA512);
}

#[test]
fn scan_partitions_digests_and_errors() {
    let rules = vec![rule("/etc/*.conf:1")];
    let mut scan = Scan::new();
    scan.add_file(&rules, "/etc/a.conf".to_string(), Ok(b"secret\nabc\n".to_vec()));
    scan.add_file(&rules, "/etc/b".to_string(), Ok(b"abc".to_vec()));
    scan.add_file(&rules, "/etc/c".to_string(), Err("Opening /etc/c".to_string()));
    assert_eq!(scan.hashes.get(&"/etc/a.conf".to_string()).unwrap(), ABC_LINE_SHA512);
    assert_eq!(scan.hashes.get(&"/etc/b".to_string()).unwrap(), ABC_LINE_SHA512);
    assert_eq!(scan.errors.get(&"/etc/c".to_string()).unwrap(), "Opening /etc/c");
    assert!(scan.hashes.get(&"/etc/c".to_string()).is_none());
    assert_eq!(scan.hashes.entries().len(), 2);
    assert_eq!(scan.errors.entries().len(), 1);
}

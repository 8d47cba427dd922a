//! Tests for definition parsing, name derivation, strategy selection, and
//! the hexadecimal hash encoding.

use bx::definition::{name_of_path, BuildStrategy, Definition, ParseError};
use bx::hashing::{hex64, parse_hex};
use bx::text::chars_of;

fn parse(path: &str, data: &str) -> Definition {
    Definition::parse(path.to_owned(), data).expect("definition should parse")
}

#[test]
fn parses_front_matter() {
    let d = parse(
        "/home/u/.config/box/dev.box",
        "#!/bin/sh\n#~ depends_on = [\"base\", \"tools\"]\n#~ containerfile = false\necho hi\n",
    );
    assert_eq!(d.path, "/home/u/.config/box/dev.box");
    assert_eq!(d.bang, "#!/bin/sh");
    assert_eq!(d.meta.depends_on, vec!["base".to_owned(), "tools".to_owned()]);
    assert!(!d.meta.containerfile);
    assert_eq!(d.tree, d.hash);
}

#[test]
fn defaults_when_no_front_matter() {
    let d = parse("a.box", "#!/bin/bash\necho hi\n");
    assert!(d.meta.depends_on.is_empty());
    assert!(!d.meta.containerfile);
}

#[test]
fn empty_file_is_rejected() {
    let r = Definition::parse("a.box".to_owned(), "");
    assert_eq!(r.unwrap_err(), ParseError::EmptyDefinition);
}

#[test]
fn type_mismatch_is_rejected() {
    let r = Definition::parse("a.box".to_owned(), "#!/bin/sh\n#~ containerfile = \"yes\"\n");
    assert!(matches!(r.unwrap_err(), ParseError::Metadata { .. }));
}

#[test]
fn depends_on_must_be_an_array() {
    let r = Definition::parse("a.box".to_owned(), "#!/bin/sh\n#~ depends_on = true\n");
    assert!(matches!(r.unwrap_err(), ParseError::Metadata { .. }));
}

#[test]
fn malformed_line_is_rejected() {
    let r = Definition::parse("a.box".to_owned(), "#!/bin/sh\n#~ depends_on = [\"a\"\n");
    assert!(matches!(r.unwrap_err(), ParseError::Metadata { .. }));
}

#[test]
fn unknown_keys_are_tolerated() {
    let d = parse("a.box", "#!/bin/sh\n#~ flavor = \"spicy\"\n#~ containerfile = true\n");
    assert!(d.meta.containerfile);
    assert!(d.meta.depends_on.is_empty());
}

#[test]
fn comments_and_trailing_commas_are_accepted() {
    let d = parse(
        "a.box",
        "#!/bin/sh\n#~ # a note\n#~ depends_on = [ \"x\" , \"y\", ] # tail\n",
    );
    assert_eq!(d.meta.depends_on, vec!["x".to_owned(), "y".to_owned()]);
}

#[test]
fn empty_dependency_array() {
    let d = parse("a.box", "#!/bin/sh\n#~ depends_on = []\n");
    assert!(d.meta.depends_on.is_empty());
}

#[test]
fn reparsing_is_deterministic() {
    let text = "#!/bin/sh\n#~ depends_on = [\"base\"]\necho unchanged\n";
    let d1 = parse("a.box", text);
    let d2 = parse("a.box", text);
    assert_eq!(d1.hash, d2.hash);
    assert_eq!(d1.tree, d2.tree);
}

#[test]
fn changed_content_changes_the_hash() {
    let d1 = parse("a.box", "#!/bin/sh\necho a\n");
    let d2 = parse("a.box", "#!/bin/sh\necho b\n");
    assert_ne!(d1.hash, d2.hash);
}

#[test]
fn hash_covers_front_matter_lines() {
    let d1 = parse("a.box", "#!/bin/sh\n#~ containerfile = false\n");
    let d2 = parse("a.box", "#!/bin/sh\n#~ containerfile = true\n");
    assert_ne!(d1.hash, d2.hash);
}

#[test]
fn names_derive_from_paths() {
    assert_eq!(name_of_path("/home/u/.config/box/dev.box"), "dev");
    assert_eq!(name_of_path("dev.box"), "dev");
    assert_eq!(name_of_path("plain"), "plain");
    assert_eq!(name_of_path("dir.d/archive.tar.box"), "archive.tar");
    assert_eq!(name_of_path("/x/.hidden"), ".hidden");
}

#[test]
fn strategy_follows_flag_then_first_line() {
    let c = parse("c.box", "FROM alpine\n#~ containerfile = true\n");
    assert_eq!(c.strategy(), BuildStrategy::Containerfile);
    let f = parse("f.box", "#!/usr/bin/fish\necho hi\n");
    assert_eq!(f.strategy(), BuildStrategy::Fish);
    let p = parse("p.box", "#!/bin/sh\necho hi\n");
    assert_eq!(p.strategy(), BuildStrategy::Posix);
    // The flag wins over the first line.
    let both = parse("b.box", "#!/usr/bin/fish\n#~ containerfile = true\n");
    assert_eq!(both.strategy(), BuildStrategy::Containerfile);
}

#[test]
fn hex_renders_and_parses_back() {
    assert_eq!(hex64(0), "0");
    assert_eq!(hex64(255), "ff");
    assert_eq!(hex64(0xdeadbeef), "deadbeef");
    assert_eq!(hex64(u64::MAX), "ffffffffffffffff");
    for v in [0u64, 1, 15, 16, 0xdead_beef_dead_beef, u64::MAX] {
        let s = hex64(v);
        let back = parse_hex(&chars_of(&s));
        assert_eq!(back, Some(v));
    }
    assert_eq!(parse_hex(&chars_of("FF")), Some(255));
    assert_eq!(parse_hex(&chars_of("")), None);
    assert_eq!(parse_hex(&chars_of("xyz")), None);
    assert_eq!(parse_hex(&chars_of("10000000000000000")), None);
}

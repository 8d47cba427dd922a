//! Tests for the container and image model: annotation lookup, ownership
//! filtering, instantiation arguments, build records, and the annotation
//! write-back strings.

use bx::cli::split_double_dash;
use bx::podman::{annotation_mapping, push_annotation_values, Container, Image};
use bx::store::resolve_directory;

fn anns(pairs: &[(&str, &str)]) -> Vec<(String, String)> {
    pairs.iter().map(|(k, v)| (k.to_string(), v.to_string())).collect()
}

#[test]
fn container_state_and_annotations() {
    let c = Container {
        id: "abc123".to_owned(),
        image: "dev".to_owned(),
        state: "running".to_owned(),
        annotations: anns(&[("manager", "box"), ("box.name", "dev")]),
    };
    assert!(c.started());
    assert!(c.is_managed());
    assert_eq!(c.annotation("box.name").as_deref(), Some("dev"));
    assert_eq!(c.annotation("absent"), None);
    let stopped = Container {
        id: "xyz".to_owned(),
        image: "dev".to_owned(),
        state: "exited".to_owned(),
        annotations: anns(&[("manager", "someone-else")]),
    };
    assert!(!stopped.started());
    assert!(!stopped.is_managed());
}

#[test]
fn instantiate_builds_the_exact_argument_list() {
    let img = Image {
        id: "img1".to_owned(),
        annotations: anns(&[
            ("manager", "box"),
            ("box.name", "dev"),
            ("box.hash", "deadbeef"),
            ("box.mount", "type=bind,src=/a,dst=/a\u{1f}type=bind,src=/b,dst=/b"),
            ("box.args", "--privileged"),
        ]),
    };
    let got = img.instantiate(false);
    let expected: Vec<String> = [
        "run", "-d", "--name", "dev", "--hostname", "dev",
        "--privileged",
        "--mount", "type=bind,src=/a,dst=/a",
        "--mount", "type=bind,src=/b,dst=/b",
        "--annotation", "manager=box",
        "--annotation", "box.name=dev",
        "--annotation", "box.hash=deadbeef",
        "dev",
    ]
    .iter()
    .map(|s| s.to_string())
    .collect();
    assert_eq!(got, expected);
}

#[test]
fn instantiate_replace_and_ephemeral() {
    let img = Image {
        id: "img2".to_owned(),
        annotations: anns(&[("box.name", "dev"), ("box.hash", "1f")]),
    };
    let replaced = img.instantiate(true);
    assert!(replaced.contains(&"--replace".to_string()));
    let eph = vec!["--entrypoint=/bin/ls".to_owned()];
    let got = img.instantiate_ext(false, &eph);
    let expected: Vec<String> = [
        "run", "--rm", "-it", "--hostname", "dev",
        "--annotation", "manager=box",
        "--annotation", "box.name=dev",
        "--annotation", "box.hash=1f",
        "dev",
        "--entrypoint=/bin/ls",
    ]
    .iter()
    .map(|s| s.to_string())
    .collect();
    assert_eq!(got, expected);
}

#[test]
fn image_records_parse_hex_annotations() {
    let img = Image {
        id: "img3".to_owned(),
        annotations: anns(&[
            ("box.path", "/defs/dev.box"),
            ("box.hash", "ff"),
            ("box.tree", "deadbeef"),
        ]),
    };
    let rec = img.record().expect("record should parse");
    assert_eq!(rec.path, "/defs/dev.box");
    assert_eq!(rec.hash, 255);
    assert_eq!(rec.tree, 0xdeadbeef);
    let broken = Image {
        id: "img4".to_owned(),
        annotations: anns(&[("box.path", "/defs/dev.box"), ("box.hash", "zz")]),
    };
    assert!(broken.record().is_none());
}

#[test]
fn annotation_write_back_strings() {
    let values = vec!["one".to_owned(), "two".to_owned()];
    assert_eq!(annotation_mapping("box.mount", &values), "box.mount=one\u{1f}two");
    // A fresh annotation read back as empty text joins to a leading
    // separator, which is stripped.
    let appended = push_annotation_values("", "first");
    assert_eq!(appended, vec!["".to_owned(), "first".to_owned()]);
    assert_eq!(annotation_mapping("box.args", &appended), "box.args=first");
    let appended2 = push_annotation_values("first", "second");
    assert_eq!(annotation_mapping("box.args", &appended2), "box.args=first\u{1f}second");
}

#[test]
fn double_dash_splits_arguments() {
    let args = vec!["-v".to_owned(), "--".to_owned(), "src".to_owned(), "dst".to_owned()];
    let (lead, trail) = split_double_dash(&args);
    assert_eq!(lead, vec!["-v".to_owned()]);
    assert_eq!(trail, vec!["src".to_owned(), "dst".to_owned()]);
    let bare = vec!["a".to_owned(), "b".to_owned()];
    let (lead, trail) = split_double_dash(&bare);
    assert_eq!(lead, bare);
    assert!(trail.is_empty());
}

#[test]
fn directory_resolution_is_layered() {
    assert_eq!(
        resolve_directory(Some("/override".to_owned()), Some("/xdg".to_owned()), None),
        Some("/override".to_owned())
    );
    assert_eq!(
        resolve_directory(None, Some("/xdg".to_owned()), Some("/home/u".to_owned())),
        Some("/xdg/box".to_owned())
    );
    assert_eq!(
        resolve_directory(None, None, Some("/home/u".to_owned())),
        Some("/home/u/.config/box".to_owned())
    );
    assert_eq!(resolve_directory(None, None, None), None);
}

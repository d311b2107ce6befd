use impaccable::codec::{serialize_package_file, parse_package_file};
use impaccable::idset::IdSet;
use impaccable::store::PackageConfiguration;

fn set_of(items: &[&str]) -> IdSet {
    let v: Vec<String> = items.iter().map(|s| s.to_string()).collect();
    IdSet::from_vec(&v)
}

fn sample_store() -> PackageConfiguration {
    let mut pc = PackageConfiguration::new();
    pc.create_file("/pkg/apps.toml", None).unwrap();
    pc.create_group("apps".to_string(), "/pkg/apps.toml").unwrap();
    pc.add_packages(&set_of(&["vim", "git"]), &"apps".to_string()).unwrap();
    pc.create_group("editors".to_string(), "/pkg/apps.toml").unwrap();
    pc
}

#[test]
fn serialize_exact_text() {
    let pc = sample_store();
    let (i, _) = pc.locate_group("apps").unwrap();
    let text = serialize_package_file(pc.files.val_at(i));
    assert_eq!(
        text,
        "[apps]\nmembers = [\"git\", \"vim\"]\naccept_indirect = false\n\
         [editors]\nmembers = []\naccept_indirect = false\n"
    );
}

#[test]
fn parse_then_serialize_is_stable() {
    let text = "[apps]\nmembers = [\"git\", \"vim\"]\naccept_indirect = false\n";
    let file = parse_package_file(text).unwrap();
    let out = serialize_package_file(&file);
    assert_eq!(out, text);
    // and once more: the fixed point holds
    let file2 = parse_package_file(&out).unwrap();
    assert_eq!(serialize_package_file(&file2), out);
}

#[test]
fn parse_collapses_duplicates_and_order() {
    let text = "[apps]\nmembers = [\"vim\", \"git\", \"vim\"]\naccept_indirect = true\n";
    let file = parse_package_file(text).unwrap();
    let out = serialize_package_file(&file);
    assert_eq!(
        out,
        "[apps]\nmembers = [\"git\", \"vim\"]\naccept_indirect = true\n"
    );
}

#[test]
fn roundtrip_with_escapes_and_quoted_keys() {
    let mut pc = PackageConfiguration::new();
    pc.create_file("/pkg/odd.toml", None).unwrap();
    pc.create_group("odd group \"x\"".to_string(), "/pkg/odd.toml").unwrap();
    pc.add_packages(&set_of(&["pkg\\back", "line\nbreak", "tab\there"]), &"odd group \"x\"".to_string())
        .unwrap();
    let (i, _) = pc.locate_group("odd group \"x\"").unwrap();
    let text = serialize_package_file(pc.files.val_at(i));
    let parsed = parse_package_file(&text).unwrap();
    assert_eq!(serialize_package_file(&parsed), text);
    let gid = parsed.groups.key_at(0).clone();
    assert_eq!(gid, "odd group \"x\"");
    assert_eq!(
        *parsed.groups.val_at(0).members.as_vec(),
        vec!["line\nbreak".to_string(), "pkg\\back".to_string(), "tab\there".to_string()]
    );
}

#[test]
fn empty_text_is_empty_file() {
    let file = parse_package_file("").unwrap();
    assert_eq!(file.groups.len(), 0);
    assert_eq!(serialize_package_file(&file), "");
}

#[test]
fn flag_line_may_be_left_out() {
    let text = "[apps]\nmembers = [\"git\"]\n";
    let file = parse_package_file(text).unwrap();
    assert!(!file.groups.val_at(0).accept_indirect);
    assert_eq!(
        serialize_package_file(&file),
        "[apps]\nmembers = [\"git\"]\naccept_indirect = false\n"
    );
}

#[test]
fn final_newline_is_optional() {
    let file = parse_package_file("[apps]\nmembers = [\"git\"]\naccept_indirect = true").unwrap();
    assert!(file.groups.val_at(0).accept_indirect);
    let file2 = parse_package_file("[apps]\nmembers = [\"git\"]").unwrap();
    assert_eq!(*file2.groups.val_at(0).members.as_vec(), vec!["git".to_string()]);
}

#[test]
fn blank_lines_between_groups_are_passed_over() {
    let text = "\n[apps]\nmembers = [\"git\"]\naccept_indirect = false\n\n\n\
                [editors]\nmembers = []\naccept_indirect = false\n\n";
    let file = parse_package_file(text).unwrap();
    assert_eq!(file.groups.len(), 2);
    assert_eq!(
        serialize_package_file(&file),
        "[apps]\nmembers = [\"git\"]\naccept_indirect = false\n\
         [editors]\nmembers = []\naccept_indirect = false\n"
    );
}

#[test]
fn parse_rejects_malformed_text() {
    assert!(parse_package_file("[apps]\n").is_err());
    assert!(parse_package_file("members = []\n").is_err());
    assert!(parse_package_file("[apps]\nmembers = [\"a\"\naccept_indirect = false\n").is_err());
    assert!(parse_package_file("[apps]\nmembers = []\naccept_indirect = maybe\n").is_err());
}

#[test]
fn parse_rejects_duplicate_group_in_file() {
    let text = "[apps]\nmembers = []\naccept_indirect = false\n\
                [apps]\nmembers = []\naccept_indirect = false\n";
    assert!(parse_package_file(text).is_err());
}

use impaccable::idset::IdSet;
use impaccable::store::{PackageConfiguration, PackageGroup, PackageFile};
use impaccable::Error;

fn set_of(items: &[&str]) -> IdSet {
    let v: Vec<String> = items.iter().map(|s| s.to_string()).collect();
    IdSet::from_vec(&v)
}

fn store_with_apps() -> PackageConfiguration {
    let mut pc = PackageConfiguration::new();
    pc.create_file("/pkg/apps.toml", None).unwrap();
    pc.create_group("apps".to_string(), "/pkg/apps.toml").unwrap();
    pc.add_packages(&set_of(&["vim", "git"]), &"apps".to_string()).unwrap();
    pc
}

#[test]
fn idset_keeps_canonical_order() {
    let s = set_of(&["zsh", "bash", "fish", "bash"]);
    assert_eq!(
        *s.as_vec(),
        vec!["bash".to_string(), "fish".to_string(), "zsh".to_string()]
    );
    assert!(s.contains("fish"));
    assert!(!s.contains("ksh"));
}

#[test]
fn idset_insert_remove() {
    let mut s = set_of(&["b"]);
    assert!(s.insert("a".to_string()));
    assert!(!s.insert("a".to_string()));
    assert_eq!(*s.as_vec(), vec!["a".to_string(), "b".to_string()]);
    assert!(s.remove("a"));
    assert!(!s.remove("a"));
    assert_eq!(*s.as_vec(), vec!["b".to_string()]);
}

#[test]
fn create_file_twice_fails() {
    let mut pc = PackageConfiguration::new();
    pc.create_file("/pkg/a.toml", None).unwrap();
    let err = pc.create_file("/pkg/a.toml", None).unwrap_err();
    assert_eq!(
        err,
        Error::PackageFileAlreadyExists { package_file: "/pkg/a.toml".to_string() }
    );
}

#[test]
fn create_group_in_untracked_file_fails() {
    let mut pc = PackageConfiguration::new();
    let err = pc.create_group("apps".to_string(), "/pkg/nowhere.toml").unwrap_err();
    assert_eq!(
        err,
        Error::PackageFileNotFound { package_file: "/pkg/nowhere.toml".to_string() }
    );
}

#[test]
fn create_group_twice_fails() {
    let mut pc = PackageConfiguration::new();
    pc.create_file("/pkg/a.toml", None).unwrap();
    pc.create_group("apps".to_string(), "/pkg/a.toml").unwrap();
    let err = pc.create_group("apps".to_string(), "/pkg/a.toml").unwrap_err();
    assert_eq!(err, Error::GroupAlreadyExists { group: "apps".to_string() });
}

#[test]
fn add_packages_unions_members() {
    let mut pc = store_with_apps();
    pc.add_packages(&set_of(&["git", "ripgrep"]), &"apps".to_string()).unwrap();
    let (i, j) = pc.locate_group("apps").unwrap();
    let group = pc.files.val_at(i).groups.val_at(j);
    assert_eq!(
        *group.members.as_vec(),
        vec!["git".to_string(), "ripgrep".to_string(), "vim".to_string()]
    );
}

#[test]
fn add_packages_is_idempotent_on_content() {
    let mut pc = store_with_apps();
    pc.add_packages(&set_of(&["git"]), &"apps".to_string()).unwrap();
    let (i, j) = pc.locate_group("apps").unwrap();
    let before: Vec<String> = pc.files.val_at(i).groups.val_at(j).members.as_vec().clone();
    pc.add_packages(&set_of(&["git"]), &"apps".to_string()).unwrap();
    let after: Vec<String> = pc.files.val_at(i).groups.val_at(j).members.as_vec().clone();
    assert_eq!(before, after);
}

#[test]
fn add_packages_to_unknown_group_fails() {
    let mut pc = store_with_apps();
    let err = pc.add_packages(&set_of(&["vim"]), &"tools".to_string()).unwrap_err();
    assert_eq!(err, Error::GroupNotFound { group: "tools".to_string() });
}

#[test]
fn add_then_remove_restores_members() {
    let mut pc = store_with_apps();
    let (i, j) = pc.locate_group("apps").unwrap();
    let before: Vec<String> = pc.files.val_at(i).groups.val_at(j).members.as_vec().clone();
    pc.add_packages(&set_of(&["htop"]), &"apps".to_string()).unwrap();
    pc.remove_package(&"htop".to_string(), &"apps".to_string()).unwrap();
    let after: Vec<String> = pc.files.val_at(i).groups.val_at(j).members.as_vec().clone();
    assert_eq!(before, after);
}

#[test]
fn remove_package_error_cases() {
    let mut pc = store_with_apps();
    let err = pc.remove_package(&"vim".to_string(), &"tools".to_string()).unwrap_err();
    assert_eq!(err, Error::GroupNotFound { group: "tools".to_string() });
    let err = pc.remove_package(&"htop".to_string(), &"apps".to_string()).unwrap_err();
    assert_eq!(err, Error::PackageNotFound { package: "htop".to_string() });
}

#[test]
fn packages_of_groups_unions_selected() {
    let mut pc = store_with_apps();
    pc.create_file("/pkg/shell.toml", None).unwrap();
    pc.create_group("shells".to_string(), "/pkg/shell.toml").unwrap();
    pc.add_packages(&set_of(&["zsh", "git"]), &"shells".to_string()).unwrap();

    let none = pc.packages_of_groups(&set_of(&[]));
    assert!(none.as_vec().is_empty());

    let all = pc.packages_of_groups(&set_of(&["apps", "shells"]));
    assert_eq!(
        *all.as_vec(),
        vec!["git".to_string(), "vim".to_string(), "zsh".to_string()]
    );

    let just_apps = pc.packages_of_groups(&set_of(&["apps"]));
    assert_eq!(*just_apps.as_vec(), vec!["git".to_string(), "vim".to_string()]);
}

#[test]
fn iter_and_filter_groups() {
    let mut pc = store_with_apps();
    pc.create_file("/pkg/shell.toml", None).unwrap();
    pc.create_group("shells".to_string(), "/pkg/shell.toml").unwrap();

    let all: Vec<String> = pc.iter_groups().into_iter().map(|(name, _)| name).collect();
    assert_eq!(all, vec!["apps".to_string(), "shells".to_string()]);

    let filtered: Vec<String> = pc
        .filter_groups(&set_of(&["shells"]))
        .into_iter()
        .map(|(name, _)| name)
        .collect();
    assert_eq!(filtered, vec!["shells".to_string()]);
}

#[test]
fn group_file_names_owning_file() {
    let pc = store_with_apps();
    assert_eq!(pc.group_file("apps").unwrap().as_str(), "/pkg/apps.toml");
    assert!(pc.group_file("tools").is_none());
}

#[test]
fn parse_store_from_texts() {
    let entries = vec![
        (
            "/pkg/apps.toml".to_string(),
            "[apps]\nmembers = [\"git\", \"vim\"]\naccept_indirect = false\n".to_string(),
        ),
    ];
    let pc = PackageConfiguration::parse(&entries).unwrap();
    let (i, j) = pc.locate_group("apps").unwrap();
    assert_eq!(
        *pc.files.val_at(i).groups.val_at(j).members.as_vec(),
        vec!["git".to_string(), "vim".to_string()]
    );
}

#[test]
fn parse_store_duplicate_path_fails() {
    let entries = vec![
        ("/pkg/a.toml".to_string(), "".to_string()),
        ("/pkg/a.toml".to_string(), "".to_string()),
    ];
    let err = PackageConfiguration::parse(&entries).unwrap_err();
    assert_eq!(
        err,
        Error::PackageFileAlreadyExists { package_file: "/pkg/a.toml".to_string() }
    );
}

#[test]
fn parse_store_duplicate_group_across_files_fails() {
    let entries = vec![
        (
            "/pkg/a.toml".to_string(),
            "[apps]\nmembers = [\"vim\"]\naccept_indirect = false\n".to_string(),
        ),
        (
            "/pkg/b.toml".to_string(),
            "[apps]\nmembers = [\"git\"]\naccept_indirect = false\n".to_string(),
        ),
    ];
    let err = PackageConfiguration::parse(&entries).unwrap_err();
    assert_eq!(err, Error::DeserializeFailure);
}

#[test]
fn group_constructors() {
    let g = PackageGroup::new();
    assert!(g.members.as_vec().is_empty());
    assert!(!g.accept_indirect);
    let g2 = PackageGroup::from_members(set_of(&["b", "a"]));
    assert_eq!(*g2.members.as_vec(), vec!["a".to_string(), "b".to_string()]);
    let f = PackageFile::new();
    assert_eq!(f.groups.len(), 0);
}

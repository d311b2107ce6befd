use impaccable::config::{Config, TargetConfig, ActiveTarget, ConfigManager, serialize_config,
    parse_config, parent_dir_of, join_path_of};
use impaccable::distro::{generate_configuration, SystemConfiguration};
use impaccable::codec::serialize_package_file;
use impaccable::idset::IdSet;
use impaccable::store::PackageConfiguration;
use impaccable::table::Table;
use impaccable::Error;

fn set_from(items: &[&str]) -> IdSet {
    let v: Vec<String> = items.iter().map(|s| s.to_string()).collect();
    IdSet::from_vec(&v)
}

fn sample_config() -> Config {
    let mut targets: Table<TargetConfig> = Table::new();
    targets.insert_new(
        "myhost".to_string(),
        TargetConfig { root_groups: set_from(&["apps"]) },
    );
    Config { package_dir: "./packages".to_string(), targets }
}

fn sample_store() -> PackageConfiguration {
    let mut pc = PackageConfiguration::new();
    pc.create_file("/etc/pkg/apps.toml", None).unwrap();
    pc.create_group("apps".to_string(), "/etc/pkg/apps.toml").unwrap();
    pc
}

#[test]
fn config_serializes_and_parses_back() {
    let c = sample_config();
    let text = serialize_config(&c);
    assert_eq!(
        text,
        "package_dir = \"./packages\"\n[targets.myhost]\nroot_groups = [\"apps\"]\n"
    );
    let c2 = parse_config(&text).unwrap();
    assert_eq!(c2.package_dir, "./packages");
    assert_eq!(c2.targets.len(), 1);
    assert_eq!(c2.targets.key_at(0).as_str(), "myhost");
    assert_eq!(*c2.targets.val_at(0).root_groups.as_vec(), vec!["apps".to_string()]);
}

#[test]
fn config_parse_rejects_garbage() {
    assert!(parse_config("").is_err());
    assert!(parse_config("package_dir = \"./p\"\n[target.oops]\n").is_err());
}

#[test]
fn template_names_the_host() {
    let c = Config::template("box".to_string());
    assert_eq!(c.package_dir, "./packages");
    assert_eq!(c.targets.len(), 1);
    assert_eq!(c.targets.key_at(0).as_str(), "box");
    assert_eq!(
        *c.targets.val_at(0).root_groups.as_vec(),
        vec!["awesome_software".to_string()]
    );
}

#[test]
fn active_target_roundtrip() {
    let mut at = ActiveTarget::new("myhost".to_string());
    assert_eq!(at.target().as_str(), "myhost");
    let toml = at.set_target("laptop".to_string());
    assert_eq!(at.target().as_str(), "laptop");
    assert_eq!(toml, "target = \"laptop\"\n");
    let parsed = ActiveTarget::parse(&toml).unwrap();
    assert_eq!(parsed.target().as_str(), "laptop");
    assert!(ActiveTarget::parse("nonsense").is_err());
}

#[test]
fn active_target_final_newline_is_optional() {
    let parsed = ActiveTarget::parse("target = \"foo\"").unwrap();
    assert_eq!(parsed.target().as_str(), "foo");
}

#[test]
fn blank_lines_in_config_are_passed_over() {
    let c = parse_config(
        "package_dir = \"./p\"\n\n[targets.one]\nroot_groups = []\n\n[targets.two]\nroot_groups = []\n",
    )
    .unwrap();
    assert_eq!(c.targets.len(), 2);
    let at = ActiveTarget::parse("target = \"box\"\n\n").unwrap();
    assert_eq!(at.target().as_str(), "box");
}

#[test]
fn config_final_newline_is_optional() {
    let c = parse_config("package_dir = \"./p\"\n[targets.box]\nroot_groups = []").unwrap();
    assert_eq!(c.package_dir, "./p");
    assert!(c.targets.val_at(0).root_groups.as_vec().is_empty());
}

#[test]
fn manager_accepts_valid_targets() {
    let mgr = ConfigManager::new(
        "/etc/impaccable/config.toml".to_string(),
        sample_config(),
        sample_store(),
    )
    .unwrap();
    assert_eq!(mgr.config().targets.len(), 1);
    assert_eq!(mgr.config_path().as_str(), "/etc/impaccable/config.toml");
    assert_eq!(mgr.package_config().files.len(), 1);
}

#[test]
fn manager_rejects_missing_root_group() {
    let mut targets: Table<TargetConfig> = Table::new();
    targets.insert_new(
        "myhost".to_string(),
        TargetConfig { root_groups: set_from(&["ghosts"]) },
    );
    let config = Config { package_dir: "./packages".to_string(), targets };
    let err = ConfigManager::new("/etc/c.toml".to_string(), config, sample_store()).unwrap_err();
    assert_eq!(err, Error::GroupNotFound { group: "ghosts".to_string() });
}

#[test]
fn manager_mutation_and_root_groups() {
    let mut mgr = ConfigManager::new(
        "/etc/impaccable/config.toml".to_string(),
        sample_config(),
        sample_store(),
    )
    .unwrap();
    let added = mgr.add_root_group(&"myhost".to_string(), "extra".to_string()).unwrap();
    assert!(added);
    let again = mgr.add_root_group(&"myhost".to_string(), "extra".to_string()).unwrap();
    assert!(!again);
    let err = mgr.add_root_group(&"elsewhere".to_string(), "x".to_string()).unwrap_err();
    assert_eq!(err, Error::TargetNotFound("elsewhere".to_string()));

    let pc = mgr.package_config_mut();
    pc.add_packages(&set_from(&["vim"]), &"apps".to_string()).unwrap();
    assert_eq!(
        *mgr.package_config().packages_of_groups(&set_from(&["apps"])).as_vec(),
        vec!["vim".to_string()]
    );
}

#[test]
fn absolute_package_dir_joins_paths() {
    let mgr = ConfigManager::new(
        "/etc/impaccable/config.toml".to_string(),
        sample_config(),
        sample_store(),
    )
    .unwrap();
    assert_eq!(mgr.absolute_package_dir().unwrap(), "/etc/impaccable/./packages");
    assert_eq!(parent_dir_of("/etc/impaccable/config.toml").unwrap(), "/etc/impaccable");
    assert_eq!(parent_dir_of("config.toml").unwrap(), "");
    assert!(parent_dir_of("/").is_none());
    assert_eq!(join_path_of("/a", "/abs"), "/abs");
    assert_eq!(join_path_of("", "rel"), "rel");
    assert_eq!(join_path_of("/a/", "b"), "/a/b");
}

#[test]
fn rootless_config_path_has_no_parent() {
    let mgr = ConfigManager::new("/".to_string(), sample_config(), sample_store()).unwrap();
    let err = mgr.absolute_package_dir().unwrap_err();
    assert_eq!(err, Error::ConfigFileHasNoParentDir { path: "/".to_string() });
}

#[test]
fn distro_groups_from_fetched_lists() {
    let lists = vec![
        ("eos-base-group".to_string(), "base\nlinux\n".to_string()),
        ("KDE".to_string(), "plasma\nkonsole\n".to_string()),
    ];
    let file = generate_configuration("EndeavourOS", &lists);
    let text = serialize_package_file(&file);
    assert_eq!(
        text,
        "[EndeavourOS-KDE]\nmembers = [\"konsole\", \"plasma\"]\naccept_indirect = false\n\
         [EndeavourOS-eos-base-group]\nmembers = [\"base\", \"linux\"]\naccept_indirect = false\n"
    );
    let sc = SystemConfiguration { distro: "EndeavourOS".to_string(), desktop: "KDE".to_string() };
    assert_eq!(sc.describe(), "EndeavourOS on KDE");
}

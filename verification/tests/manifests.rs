use mhf_runtime::keyed::IdMap;
use mhf_runtime::manifest::{
    check_package_directory, order_candidates, relative_path, require_native_entry, validate_id, Candidate, Kind,
    Manifest, Source,
};
use mhf_runtime::version::{Version, VersionReq};

fn manifest(id: &str) -> Manifest {
    Manifest {
        schema: 1,
        id: id.into(),
        name: "Example".into(),
        version: Version::new(1, 2, 3),
        kind: Kind::Native,
        entry: Some("bin/mod.dll".into()),
        dependencies: IdMap::new(),
    }
}

#[test]
fn ids_start_alphanumeric_and_use_a_small_alphabet() {
    assert!(validate_id("mhf.base").is_ok());
    assert!(validate_id("example_mod-2").is_ok());
    assert_eq!(validate_id(".hidden").unwrap_err(), "Mod ID 无效：.hidden");
    assert!(validate_id("").is_err());
    assert!(validate_id("with space").is_err());
}

#[test]
fn package_paths_are_portable_and_stay_inside_the_package() {
    assert_eq!(relative_path("assets/text.txt"), Ok("assets/text.txt"));
    for bad in ["", "../escape", "a//b", "a/./b", "C:/x", "a\\b", "/abs", "dir/"] {
        assert_eq!(relative_path(bad).unwrap_err(), format!("Mod 包的相对路径无效：{bad}"), "{bad}");
    }
}

#[test]
fn manifests_report_their_first_problem() {
    assert!(manifest("example").validate().is_ok());
    let mut data = manifest("example");
    data.kind = Kind::Data;
    assert_eq!(data.validate().unwrap_err(), "example：数据 Mod 不能设置 DLL 入口（entry）");
    let mut escaping = manifest("example");
    escaping.entry = Some("../elsewhere.dll".into());
    assert_eq!(escaping.validate().unwrap_err(), "Mod 包的相对路径无效：../elsewhere.dll");
    let mut unnamed = manifest("example");
    unnamed.name = " \t".into();
    assert_eq!(unnamed.validate().unwrap_err(), "example：缺少显示名称");
    let mut newer = manifest("example");
    newer.schema = 3;
    assert_eq!(newer.validate().unwrap_err(), "example：不支持 mod.toml 的 schema 版本 3");
    let mut dependent = manifest("example");
    dependent.dependencies.insert("bad dep".into(), VersionReq::parse("^1").unwrap());
    assert_eq!(dependent.validate().unwrap_err(), "Mod ID 无效：bad dep");
    assert!(Candidate::builtin(manifest("bad id")).is_err());
}

#[test]
fn versions_parse_compare_and_match() {
    let older = Version::parse("1.2.3").unwrap();
    let newer = Version::parse("1.10.0").unwrap();
    assert_eq!(newer.compare(&older), 1);
    assert_eq!(older.compare(&newer), -1);
    assert_eq!(older.compare(&Version::new(1, 2, 3)), 0);
    assert!(Version::parse("1.2").is_err());
    let caret = VersionReq::parse("^1.2").unwrap();
    assert!(caret.matches(&newer));
    assert!(!caret.matches(&Version::parse("2.0.0").unwrap()));
    assert!(!VersionReq::star().matches(&Version::parse("1.0.0-beta.1").unwrap()));
    assert!(VersionReq::star().matches(&older));
    assert_eq!(VersionReq::parse(">=1.0, <2").unwrap().to_text(), ">=1.0, <2");
    assert!(VersionReq::parse("not a range").is_err());
}

#[test]
fn native_packages_on_disk_name_their_entry() {
    assert!(require_native_entry(&manifest("example")).is_ok());
    let mut data = manifest("example");
    data.kind = Kind::Data;
    data.entry = None;
    assert!(require_native_entry(&data).is_ok());
    let mut missing = manifest("example");
    missing.entry = None;
    assert_eq!(require_native_entry(&missing).unwrap_err(), "example：原生 Mod 包必须设置入口字段 entry");
}

#[test]
fn package_directories_follow_id_and_version() {
    let m = manifest("example");
    assert!(check_package_directory("example", "1.2.3", &m, "mods/example/1.2.3").is_ok());
    assert_eq!(
        check_package_directory("example", "1.2.4", &m, "mods/example/1.2.4").unwrap_err(),
        "mods/example/1.2.4：Mod 包目录必须与 mod.toml 中的 id/version 一致"
    );
    assert!(check_package_directory("other", "1.2.3", &m, "mods/other/1.2.3").is_err());
}

#[test]
fn discovered_packages_are_ordered_by_id_then_version() {
    let at = |id: &str, version: &str| {
        let mut m = manifest(id);
        m.version = Version::parse(version).unwrap();
        Candidate { manifest: m, source: Source::Directory(format!("mods/{id}/{version}")) }
    };
    let ordered = order_candidates(vec![
        at("zeta", "1.0.0"),
        at("alpha", "1.10.0"),
        at("alpha", "1.2.0"),
        at("alpha", "1.2.0-beta.1"),
        at("beta", "0.1.0"),
    ]);
    let listed: Vec<(String, String)> =
        ordered.iter().map(|c| (c.manifest.id.clone(), c.manifest.version.as_str().to_string())).collect();
    assert_eq!(
        listed,
        vec![
            ("alpha".to_string(), "1.2.0-beta.1".to_string()),
            ("alpha".to_string(), "1.2.0".to_string()),
            ("alpha".to_string(), "1.10.0".to_string()),
            ("beta".to_string(), "0.1.0".to_string()),
            ("zeta".to_string(), "1.0.0".to_string()),
        ]
    );
    assert!(order_candidates(Vec::new()).is_empty());
}

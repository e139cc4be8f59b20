use mhf_runtime::keyed::{IdMap, IdSet};
use mhf_runtime::manifest::{Candidate, Kind, Manifest, Source};
use mhf_runtime::pack::{
    check_archive_entry, is_false, nothing_to_import, package_prefix, plan_export, validate_pack,
    ArchiveEntry, Pack, PackEntry,
};
use mhf_runtime::version::Version;

fn candidate(id: &str, version: &str, source: Source) -> Candidate {
    Candidate {
        manifest: Manifest {
            schema: 1,
            id: id.into(),
            name: id.into(),
            version: Version::parse(version).unwrap(),
            kind: Kind::Data,
            entry: None,
            dependencies: IdMap::new(),
        },
        source,
    }
}

fn entry(id: &str, version: &str, builtin: bool) -> PackEntry {
    PackEntry { id: id.into(), version: Version::parse(version).unwrap(), builtin }
}

#[test]
fn receipts_need_schema_one_valid_ids_and_one_entry_per_mod() {
    assert!(Pack { schema: 1, mods: vec![entry("a", "1.0.0", false), entry("b", "2.0.0", true)] }.check().is_ok());
    assert_eq!(
        Pack { schema: 2, mods: vec![] }.check().unwrap_err(),
        "不支持 pack.toml 的 schema 版本 2"
    );
    assert_eq!(
        Pack { schema: 1, mods: vec![entry("a", "1.0.0", false), entry("a", "2.0.0", false)] }
            .check()
            .unwrap_err(),
        "a：pack.toml 中重复选择了同一 Mod"
    );
    assert_eq!(
        Pack { schema: 1, mods: vec![entry("bad id", "1.0.0", false)] }.check().unwrap_err(),
        "Mod ID 无效：bad id"
    );
}

#[test]
fn receipts_must_match_the_packages_found_except_builtins() {
    let pack = Pack { schema: 1, mods: vec![entry("a", "1.0.0", false), entry("mhf.base", "1.2.0", true)] };
    let found = vec![candidate("a", "1.0.0", Source::Directory("staging/mods/a/1.0.0".into()))];
    assert!(validate_pack(&pack, &found).is_ok());
    let other = vec![candidate("a", "2.0.0", Source::Directory("staging/mods/a/2.0.0".into()))];
    assert_eq!(
        validate_pack(&pack, &other).unwrap_err(),
        "pack.toml 中选择的 Mod 及版本与 ZIP 包内的 Mod 清单不一致"
    );
    assert!(validate_pack(&pack, &Vec::new()).is_err());
}

#[test]
fn archive_entries_must_be_portable_unique_and_inside_a_package() {
    let mut seen = IdSet::new();
    assert!(matches!(check_archive_entry("pack.toml", false, None, &mut seen), Ok(ArchiveEntry::Receipt)));
    assert!(matches!(
        check_archive_entry("mods/a/1.0.0/mod.toml", false, None, &mut seen),
        Ok(ArchiveEntry::Extract)
    ));
    assert!(matches!(check_archive_entry("mods/a/", true, None, &mut seen), Ok(ArchiveEntry::Extract)));
    assert_eq!(
        check_archive_entry("MODS/A/1.0.0/MOD.TOML", false, None, &mut seen).unwrap_err(),
        "ZIP 包内路径重复：MODS/A/1.0.0/MOD.TOML"
    );
    for name in ["../escape", "mods/a/1.0.0/../../../../escape", "C:/escape", "mods/a/1.0.0/..\\escape", "/escape"] {
        assert!(check_archive_entry(name, false, None, &mut seen).is_err(), "{name}");
    }
    assert_eq!(
        check_archive_entry("mods/b/1.0.0/link", false, Some(0o120777), &mut seen).unwrap_err(),
        "ZIP 包不支持符号链接：mods/b/1.0.0/link"
    );
    assert_eq!(
        check_archive_entry("other/b/1.0.0/file", false, None, &mut seen).unwrap_err(),
        "ZIP 包内路径必须采用 mods/id/version/file 格式：other/b/1.0.0/file"
    );
    assert!(check_archive_entry("mods/c/1.0.0", false, None, &mut seen).is_err());
    assert_eq!(
        check_archive_entry("mods/bad id/1.0.0/x", false, None, &mut seen).unwrap_err(),
        "Mod ID 无效：bad id"
    );
    assert!(check_archive_entry("mods/c/not-a-version/x", false, None, &mut seen)
        .unwrap_err()
        .starts_with("Mod 包目录中的版本号无效："));
}

#[test]
fn exports_record_each_selected_version_once() {
    let selected = vec![
        candidate("example.text", "1.0.0", Source::Directory("source/example.text/1.0.0".into())),
        candidate("mhf.base", "1.2.0", Source::Builtin),
    ];
    let pack = plan_export(&selected).unwrap();
    assert_eq!(pack.schema, 1);
    assert_eq!(pack.mods.len(), 2);
    assert!(!pack.mods[0].builtin);
    assert!(pack.mods[1].builtin);
    assert_eq!(
        package_prefix("example.text", &pack.mods[0].version),
        "mods/example.text/1.0.0"
    );
    let twice = vec![
        candidate("a", "1.0.0", Source::Builtin),
        candidate("a", "2.0.0", Source::Builtin),
    ];
    assert_eq!(plan_export(&twice).unwrap_err(), "a：每个 Mod 只能选择一个版本导出");
    assert!(is_false(&false));
    assert!(!is_false(&true));
}

#[test]
fn empty_archives_are_refused_unless_their_receipt_lists_only_builtins() {
    assert!(nothing_to_import(0, &None));
    assert!(!nothing_to_import(1, &None));
    assert!(nothing_to_import(0, &Some(Pack { schema: 1, mods: vec![] })));
    assert!(!nothing_to_import(0, &Some(Pack { schema: 1, mods: vec![entry("mhf.base", "1.0.0", true)] })));
    assert!(nothing_to_import(0, &Some(Pack { schema: 1, mods: vec![entry("a", "1.0.0", false)] })));
}

use mhf_runtime::catalog::{BuiltinCatalog, ModSettings, RuntimeConfig};
use mhf_runtime::manifest::{Candidate, Source};
use mhf_runtime::resolve::Resolved;
use mhf_runtime::version::Version;

const CATALOG: BuiltinCatalog = BuiltinCatalog { login: true, debug: true, workbench: false };

fn config(entries: &[(&str, bool)]) -> RuntimeConfig {
    let mut config = RuntimeConfig::default();
    for (id, enabled) in entries {
        config.modules.insert(
            id.to_string(),
            ModSettings { enabled: Some(*enabled), version: None, settings: String::new() },
        );
    }
    config
}

fn plan(catalog: BuiltinCatalog, entries: &[(&str, bool)]) -> Result<Resolved, String> {
    let candidates = catalog.candidates()?;
    catalog.resolve(&config(entries), &candidates)
}

fn selected(plan: &Resolved, id: &str) -> bool {
    plan.mods.iter().any(|candidate| candidate.manifest.id == id)
}

fn position(plan: &Resolved, id: &str) -> usize {
    plan.mods.iter().position(|candidate| candidate.manifest.id == id).unwrap()
}

fn add_external(candidates: &mut Vec<Candidate>, id: &str) {
    let mut candidate = candidates
        .iter()
        .find(|candidate| candidate.manifest.id == id)
        .unwrap()
        .duplicate();
    candidate.manifest.version = Version::new(1, 1, 0);
    candidate.manifest.entry = Some("mod.dll".into());
    candidate.source = Source::Directory(format!("mods/{id}/1.1.0"));
    candidates.push(candidate);
}

#[test]
fn default_login_pulls_base_through_its_declared_dependencies() {
    let resolved = plan(CATALOG, &[]).unwrap();
    assert_eq!(
        resolved.mods.iter().map(|candidate| candidate.manifest.id.as_str()).collect::<Vec<_>>(),
        ["mhf.config", "mhf.base", "mhf.login"]
    );
    assert!(plan(CATALOG, &[("mhf.base", false)]).is_err());
    let resolved = plan(CATALOG, &[("mhf.login", false)]).unwrap();
    assert!(resolved.mods.is_empty());
    let resolved = plan(CATALOG, &[("mhf.login", false), ("mhf.base", false)]).unwrap();
    assert!(resolved.mods.is_empty());
}

#[test]
fn explicit_debug_keeps_default_login_and_adds_its_dependencies() {
    let resolved = plan(CATALOG, &[("mhf.debug", true)]).unwrap();
    for id in ["mhf.base", "mhf.login", "mhf.debug"] {
        assert!(selected(&resolved, id), "{id}");
    }
    assert!(position(&resolved, "mhf.base") < position(&resolved, "mhf.debug"));
    let resolved = plan(CATALOG, &[("mhf.debug", true), ("mhf.login", false)]).unwrap();
    assert!(selected(&resolved, "mhf.base"));
    assert!(selected(&resolved, "mhf.config"));
    assert!(selected(&resolved, "mhf.debug"));
    assert!(!selected(&resolved, "mhf.login"));
    assert!(plan(CATALOG, &[("mhf.debug", true), ("mhf.login", false), ("mhf.base", false)]).is_err());
}

#[test]
fn the_catalog_only_exposes_compiled_packages() {
    let minimal = BuiltinCatalog { login: false, debug: false, workbench: false };
    let candidates = minimal.candidates().unwrap();
    assert_eq!(candidates.len(), 2);
    assert_eq!(candidates[0].manifest.id, "mhf.config");
    assert!(plan(minimal, &[]).unwrap().mods.is_empty());
    assert_eq!(plan(minimal, &[("mhf.base", true)]).unwrap().mods.len(), 2);
    for id in ["mhf.login", "mhf.debug", "mhf.quest"] {
        assert!(plan(minimal, &[(id, true)]).is_err());
    }
    let ids: Vec<String> = CATALOG
        .candidates()
        .unwrap()
        .into_iter()
        .map(|candidate| candidate.manifest.id)
        .collect();
    for former_component in ["mhf.font", "mhf.ui", "mhf.geometry", "mhf.quest"] {
        assert!(!ids.iter().any(|id| id == former_component), "{former_component} must remain inside Base");
    }
}

#[test]
fn workbench_is_explicit_and_shares_base_without_pulling_debug() {
    let catalog = BuiltinCatalog { workbench: true, ..CATALOG };
    let ordinary = plan(catalog, &[]).unwrap();
    assert!(!selected(&ordinary, "mhf.workbench"));
    let workbench = plan(catalog, &[("mhf.workbench", true)]).unwrap();
    for id in ["mhf.config", "mhf.base", "mhf.workbench"] {
        assert!(selected(&workbench, id));
    }
    assert!(!selected(&workbench, "mhf.debug"));
    assert!(position(&workbench, "mhf.base") < position(&workbench, "mhf.workbench"));
    assert!(plan(CATALOG, &[("mhf.workbench", true)]).is_err());
}

#[test]
fn external_base_can_replace_builtin_support() {
    let mut candidates = CATALOG.candidates().unwrap();
    add_external(&mut candidates, "mhf.base");
    for entries in [&[][..], &[("mhf.debug", true)][..]] {
        let resolved = CATALOG.resolve(&config(entries), &candidates).unwrap();
        assert!(matches!(resolved.mods[position(&resolved, "mhf.base")].source, Source::Directory(_)));
        assert!(selected(&resolved, "mhf.login"));
    }
}

#[test]
fn configuration_provider_has_no_consumer_dependencies() {
    let candidates = CATALOG.candidates().unwrap();
    let provider = candidates.iter().find(|candidate| candidate.manifest.id == "mhf.config").unwrap();
    assert_eq!(provider.manifest.dependencies.len(), 0);
    let login = candidates.iter().find(|candidate| candidate.manifest.id == "mhf.login").unwrap();
    let deps = &login.manifest.dependencies;
    assert_eq!(
        (0..deps.len()).map(|i| deps.key_at(i).as_str()).collect::<Vec<_>>(),
        ["mhf.base", "mhf.config"]
    );
    let base = candidates.iter().find(|candidate| candidate.manifest.id == "mhf.base").unwrap();
    assert!(base.manifest.dependencies.contains("mhf.config"));
}

#[test]
fn runtime_config_separates_selection_from_provider_settings() {
    let mut config = RuntimeConfig::default();
    assert_eq!(config.directory, "mods");
    assert_eq!(config.modules.len(), 0);
    config.directory = "packages".into();
    config.modules.insert(
        "example.counter".into(),
        ModSettings {
            enabled: Some(true),
            version: Some(mhf_runtime::version::VersionReq::parse("^1.0").unwrap()),
            settings: "step = 3\n".into(),
        },
    );
    let settings = config.modules.get("example.counter").unwrap();
    assert_eq!(settings.enabled, Some(true));
    assert_eq!(settings.settings, "step = 3\n");
    let selections = config.selections();
    assert_eq!(selections.get("example.counter").unwrap().version.as_ref().unwrap().to_text(), "^1.0");
}

#[test]
fn builtin_manifests_are_release_one_native_packages() {
    for candidate in CATALOG.candidates().unwrap() {
        assert_eq!(candidate.manifest.schema, 1);
        assert_eq!(candidate.manifest.version.as_str(), "1.0.0");
        assert!(candidate.manifest.entry.is_none());
        assert!(matches!(candidate.source, Source::Builtin));
        assert!(candidate.manifest.validate().is_ok());
    }
    let names: Vec<String> = CATALOG.candidates().unwrap().into_iter().map(|c| c.manifest.name).collect();
    assert_eq!(names, ["配置服务", "基础支持", "登录启动", "调试启动"]);
}

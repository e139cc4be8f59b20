use mhf_runtime::keyed::{IdMap, IdSet};
use mhf_runtime::manifest::{Candidate, Kind, Manifest};
use mhf_runtime::resolve::{resolve, Selection};
use mhf_runtime::version::{Version, VersionReq};

fn candidate(id: &str, version: &str, dependencies: &[(&str, &str)]) -> Candidate {
    let mut deps = IdMap::new();
    for (dep, req) in dependencies {
        deps.insert(dep.to_string(), VersionReq::parse(req).unwrap());
    }
    Candidate::builtin(Manifest {
        schema: 1,
        id: id.into(),
        name: id.into(),
        version: Version::parse(version).unwrap(),
        kind: Kind::Native,
        entry: None,
        dependencies: deps,
    })
    .unwrap()
}

fn ids(values: &[&str]) -> IdSet {
    let mut set = IdSet::new();
    for value in values {
        set.insert(value.to_string());
    }
    set
}

fn no_selections() -> IdMap<Selection> {
    IdMap::new()
}

fn disabled(id: &str) -> IdMap<Selection> {
    let mut selections = IdMap::new();
    selections.insert(id.into(), Selection { enabled: Some(false), version: None });
    selections
}

#[test]
fn chooses_older_provider_when_a_later_consumer_requires_it() {
    let candidates = vec![
        candidate("a", "2.0.0", &[]),
        candidate("a", "1.4.0", &[]),
        candidate("z", "1.0.0", &[("a", "^1")]),
    ];
    let resolved = resolve(&candidates, &no_selections(), &ids(&["a", "z"]), &ids(&[])).unwrap();
    assert_eq!(
        resolved
            .mods
            .iter()
            .map(|m| (m.manifest.id.as_str(), m.manifest.version.as_str().to_string()))
            .collect::<Vec<_>>(),
        [("a", "1.4.0".to_string()), ("z", "1.0.0".to_string())]
    );
}

#[test]
fn backtracks_consumer_version_for_transitive_dependencies() {
    let candidates = vec![
        candidate("app", "2.0.0", &[("middle", "^2")]),
        candidate("app", "1.0.0", &[("middle", "^1")]),
        candidate("middle", "2.0.0", &[("base", "^2")]),
        candidate("middle", "1.0.0", &[("base", "^1")]),
        candidate("base", "1.0.0", &[]),
    ];
    let resolved = resolve(&candidates, &no_selections(), &ids(&["app"]), &ids(&[])).unwrap();
    assert_eq!(
        resolved.mods.iter().map(|m| m.manifest.id.as_str()).collect::<Vec<_>>(),
        ["base", "middle", "app"]
    );
    assert!(resolved.mods.iter().all(|m| m.manifest.version == Version::new(1, 0, 0)));
}

#[test]
fn rejects_incompatible_consumers_and_explicitly_disabled_dependencies() {
    let candidates = vec![
        candidate("a", "1.0.0", &[]),
        candidate("a", "2.0.0", &[]),
        candidate("b", "1.0.0", &[("a", "^1")]),
        candidate("c", "1.0.0", &[("a", "^2")]),
    ];
    assert!(resolve(&candidates, &no_selections(), &ids(&["b", "c"]), &ids(&[])).is_err());
    let selections = disabled("a");
    assert!(resolve(&candidates, &selections, &ids(&["b"]), &ids(&[])).is_err());
    assert!(resolve(&candidates, &selections, &ids(&[]), &ids(&["a"])).is_err());
    assert!(resolve(&candidates, &selections, &ids(&["a"]), &ids(&[])).unwrap().mods.is_empty());
}

#[test]
fn cycles_are_rejected_and_can_cause_version_backtracking() {
    let mut candidates = vec![
        candidate("a", "2.0.0", &[("b", "^1")]),
        candidate("b", "1.0.0", &[("a", ">=1")]),
    ];
    assert!(resolve(&candidates, &no_selections(), &ids(&["a"]), &ids(&[])).is_err());
    candidates.push(candidate("a", "1.0.0", &[]));
    assert_eq!(
        resolve(&candidates, &no_selections(), &ids(&["a"]), &ids(&[])).unwrap().mods[0].manifest.version,
        Version::new(1, 0, 0)
    );
}

#[test]
fn selection_supports_explicit_prereleases_and_rejects_duplicate_sources() {
    let candidates = vec![candidate("a", "1.0.0-beta.1", &[])];
    let mut selections = IdMap::new();
    selections.insert(
        "a".to_string(),
        Selection { enabled: Some(true), version: Some(VersionReq::parse("=1.0.0-beta.1").unwrap()) },
    );
    assert_eq!(resolve(&candidates, &selections, &ids(&[]), &ids(&[])).unwrap().mods.len(), 1);
    let duplicate = vec![candidates[0].duplicate(), candidates[0].duplicate()];
    assert!(resolve(&duplicate, &selections, &ids(&[]), &ids(&[])).is_err());
}

#[test]
fn failures_explain_the_conflict_the_disabling_and_the_cycle() {
    let candidates = vec![
        candidate("a", "1.0.0", &[]),
        candidate("b", "1.0.0", &[("a", "^2")]),
    ];
    let Err(conflict) = resolve(&candidates, &no_selections(), &ids(&["b"]), &ids(&[])) else {
        panic!("a 2.x is not available");
    };
    assert_eq!(conflict, "a: no compatible version (b 1.0.0 requires ^2)");
    let Err(refused) = resolve(&candidates, &disabled("a"), &ids(&[]), &ids(&["a"])) else {
        panic!("a is disabled");
    };
    assert_eq!(refused, "a: explicitly disabled, required by selection");
    let cyclic = vec![candidate("x", "1.0.0", &[("y", "*")]), candidate("y", "1.0.0", &[("x", "*")])];
    let Err(cycle) = resolve(&cyclic, &no_selections(), &ids(&["x"]), &ids(&[])) else {
        panic!("x and y form a cycle");
    };
    assert_eq!(cycle, "dependency cycle: x -> y -> x");
    let duplicate = vec![candidate("d", "1.0.0", &[]), candidate("d", "1.0.0", &[])];
    let Err(sources) = resolve(&duplicate, &no_selections(), &ids(&["d"]), &ids(&[])) else {
        panic!("two sources of d 1.0.0");
    };
    assert_eq!(sources, "d 1.0.0: multiple implementation sources");
}

#[test]
fn invalid_manifests_are_reported_before_resolution() {
    let mut bad = candidate("a", "1.0.0", &[]);
    bad.manifest.schema = 2;
    let good = candidate("b", "1.0.0", &[]);
    let Err(message) = resolve(&vec![good, bad], &no_selections(), &ids(&["b"]), &ids(&[])) else {
        panic!("schema 2 is not supported");
    };
    assert_eq!(message, "a：不支持 mod.toml 的 schema 版本 2");
}

#[test]
fn an_explicitly_enabled_mod_is_a_root() {
    let candidates = vec![candidate("extra", "1.2.0", &[])];
    let mut selections = IdMap::new();
    selections.insert("extra".to_string(), Selection { enabled: Some(true), version: None });
    let resolved = resolve(&candidates, &selections, &ids(&[]), &ids(&[])).unwrap();
    assert_eq!(resolved.mods.len(), 1);
    assert!(resolve(&candidates, &no_selections(), &ids(&[]), &ids(&[])).unwrap().mods.is_empty());
}

fn plan(resolved: &mhf_runtime::resolve::Resolved) -> Vec<(String, String)> {
    resolved
        .mods
        .iter()
        .map(|m| (m.manifest.id.clone(), m.manifest.version.as_str().to_string()))
        .collect()
}

#[test]
fn nothing_requested_loads_nothing() {
    let candidates = vec![candidate("a", "1.0.0", &[]), candidate("b", "1.0.0", &[("a", "^1")])];
    let resolved = resolve(&candidates, &no_selections(), &ids(&[]), &ids(&[])).unwrap();
    assert!(resolved.mods.is_empty());
}

#[test]
fn only_roots_and_their_dependencies_are_loaded() {
    let candidates = vec![
        candidate("a", "1.0.0", &[]),
        candidate("b", "1.0.0", &[("a", "^1")]),
        candidate("c", "1.0.0", &[]),
    ];
    let resolved = resolve(&candidates, &no_selections(), &ids(&["b"]), &ids(&[])).unwrap();
    assert_eq!(plan(&resolved), [("a".to_string(), "1.0.0".to_string()), ("b".to_string(), "1.0.0".to_string())]);
}

#[test]
fn the_newest_compatible_version_is_chosen() {
    let candidates = vec![candidate("a", "1.0.0", &[]), candidate("a", "1.3.0", &[]), candidate("a", "1.2.0", &[])];
    let resolved = resolve(&candidates, &no_selections(), &ids(&["a"]), &ids(&[])).unwrap();
    assert_eq!(plan(&resolved), [("a".to_string(), "1.3.0".to_string())]);
}

#[test]
fn parse_errors_carry_the_parsers_message() {
    let version_error = Version::parse("1.x").unwrap_err();
    assert!(!version_error.is_empty() && version_error != "1.x");
    assert_eq!(Version::parse("1.x").unwrap_err(), version_error);
    let requirement_error = VersionReq::parse("^^1").unwrap_err();
    assert!(!requirement_error.is_empty() && requirement_error != "^^1");
}

#[test]
fn the_least_root_is_chosen_first_and_newest() {
    let candidates = vec![
        candidate("a", "1.0.0", &[]),
        candidate("a", "2.0.0", &[]),
        candidate("b", "1.0.0", &[("a", "^1")]),
        candidate("b", "2.0.0", &[]),
    ];
    let resolved = resolve(&candidates, &no_selections(), &ids(&["a", "b"]), &ids(&[])).unwrap();
    assert_eq!(plan(&resolved), [("a".to_string(), "2.0.0".to_string()), ("b".to_string(), "2.0.0".to_string())]);
}

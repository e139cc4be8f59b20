use std::cell::RefCell;
use mhf_runtime::host::ModStatus;
use mhf_runtime::keyed::{IdMap, IdSet};
use mhf_runtime::lifecycle::{
    create_failure, dependencies_of, host_entry, module_source, teardown_order, Cleanup, HostEntry,
    Lifecycle, ModuleSource,
};
use mhf_runtime::manifest::{Candidate, Kind, Manifest, Source};
use mhf_runtime::status::{CANCELLED, ERROR, OK, PHASE_ATTACH, PHASE_CHECK, PHASE_PREPARE};
use mhf_runtime::version::{Version, VersionReq};

fn entry(id: &str, dependencies: &[&str]) -> HostEntry {
    let mut set = IdSet::new();
    for dependency in dependencies {
        set.insert(dependency.to_string());
    }
    HostEntry {
        id: id.into(),
        dependencies: set,
        participated: false,
        stopped: false,
        detach_called: false,
        detached: false,
        release_prepared: false,
        status: ModStatus { id: id.into(), version: "1.0.0".into(), phase: "created".into(), error: None },
    }
}

fn ids(set: &IdSet) -> Vec<String> {
    (0..set.len()).map(|i| set.id_at(i).clone()).collect()
}

fn chain() -> Vec<HostEntry> {
    vec![
        entry("mhf.config", &[]),
        entry("mhf.base", &["mhf.config"]),
        entry("example.font", &["mhf.base"]),
        entry("example.ui", &["example.font"]),
        entry("example.other", &[]),
    ]
}

#[test]
fn failures_keep_every_transitive_provider() {
    let entries = chain();
    assert_eq!(ids(&dependencies_of(&entries, 3)), ["example.font", "mhf.base", "mhf.config"]);
    assert!(ids(&dependencies_of(&entries, 4)).is_empty());
    let looped = vec![entry("a", &["b"]), entry("b", &["a"])];
    assert_eq!(ids(&dependencies_of(&looped, 0)), ["a", "b"]);
}

#[test]
fn teardown_detaches_consumers_first_and_prefers_the_given_order() {
    let entries = chain();
    let order = teardown_order(&entries, &Vec::new()).unwrap();
    let position = |index: usize| order.iter().position(|i| *i == index).unwrap();
    assert!(position(3) < position(2));
    assert!(position(2) < position(1));
    assert!(position(1) < position(0));
    assert_eq!(order.len(), 5);
    let preferred = vec!["example.other".to_string(), "mhf.config".to_string()];
    let order = teardown_order(&entries, &preferred).unwrap();
    assert_eq!(order, [3, 2, 1, 4, 0]);
    let looped = vec![entry("a", &["b"]), entry("b", &["a"])];
    assert_eq!(
        teardown_order(&looped, &Vec::new()).unwrap_err(),
        "resolved Mod plan contains a dependency cycle"
    );
}

#[test]
fn a_failed_phase_ends_startup() {
    let mut lifecycle = Lifecycle::new(chain());
    assert!(lifecycle.begin_phase(PHASE_PREPARE, "prepare").is_ok());
    assert_eq!(
        lifecycle.begin_phase(PHASE_CHECK, "check").unwrap_err(),
        "cannot check in the current Mod lifecycle state"
    );
    assert!(lifecycle.record_phase(0, "prepare", Ok(())).is_ok());
    assert_eq!(lifecycle.entries[0].status.phase, "prepare");
    let error = lifecycle.record_phase(1, "prepare", Err("no font".into())).unwrap_err();
    assert_eq!(error, "mhf.base: prepare: no font");
    assert_eq!(lifecycle.entries[1].status.phase, "failed");
    assert!(lifecycle.begin_phase(PHASE_PREPARE, "prepare").is_err());
}

#[test]
fn stop_failure_keeps_transitive_providers_operational_and_can_be_retried() {
    let mut lifecycle = Lifecycle::new(chain());
    for index in 0..5 {
        lifecycle.record_phase(index, "prepare", Ok(())).unwrap();
    }
    lifecycle.end_phase();
    let mut retained = IdSet::new();
    let mut errors = Vec::new();
    let mut called = Vec::new();
    for index in (0..5).rev() {
        if !lifecycle.due(Cleanup::Stop, index, &retained) {
            continue;
        }
        called.push(index);
        let result = if index == 3 { Err("busy".to_string()) } else { Ok(()) };
        lifecycle.record_cleanup(Cleanup::Stop, index, result, &mut retained, &mut errors);
    }
    assert_eq!(called, [4, 3]);
    assert_eq!(errors, ["example.ui: stop: busy"]);
    assert_eq!(lifecycle.finish_cleanup(Cleanup::Stop, &errors).unwrap_err(), "example.ui: stop: busy");
    assert!(lifecycle.must_retain());
    assert!(lifecycle.entries[4].stopped);
    assert_eq!(lifecycle.entries[3].status.phase, "stop_failed");
    let mut retained = IdSet::new();
    let mut errors = Vec::new();
    let mut called = Vec::new();
    for index in (0..5).rev() {
        if lifecycle.due(Cleanup::Stop, index, &retained) {
            called.push(index);
            lifecycle.record_cleanup(Cleanup::Stop, index, Ok(()), &mut retained, &mut errors);
        }
    }
    assert_eq!(called, [3, 2, 1, 0]);
    assert!(lifecycle.finish_cleanup(Cleanup::Stop, &errors).is_ok());
    assert!(lifecycle.stopped);
    assert!(!lifecycle.must_retain());
    assert_eq!(
        lifecycle.release_allowed().unwrap_err(),
        "detach must complete before preparing game release"
    );
}

fn candidate(source: Source, kind: Kind, entry: Option<&str>) -> Candidate {
    let mut dependencies = IdMap::new();
    dependencies.insert("mhf.base".to_string(), VersionReq::parse("^1").unwrap());
    Candidate {
        manifest: Manifest {
            schema: 1,
            id: "example.mod".into(),
            name: "Example".into(),
            version: Version::new(2, 1, 0),
            kind,
            entry: entry.map(str::to_string),
            dependencies,
        },
        source,
    }
}

#[test]
fn candidates_are_instantiated_by_their_source() {
    assert!(matches!(module_source(&candidate(Source::Builtin, Kind::Native, None)), Ok(ModuleSource::Builtin)));
    let native = module_source(&candidate(Source::Directory("mods/example.mod/2.1.0".into()), Kind::Native, Some("bin/mod.dll")));
    assert!(matches!(native, Ok(ModuleSource::Native { ref directory, ref entry }) if directory == "mods/example.mod/2.1.0" && entry == "bin/mod.dll"));
    assert!(matches!(
        module_source(&candidate(Source::Directory("mods/x".into()), Kind::Data, None)),
        Ok(ModuleSource::Data { .. })
    ));
    assert_eq!(
        module_source(&candidate(Source::Directory("mods/x".into()), Kind::Native, None)).unwrap_err(),
        "example.mod: missing DLL entry"
    );
    assert_eq!(create_failure("example.mod", "boom", None), "example.mod: create: boom");
    assert_eq!(
        create_failure("example.mod", "boom", Some("hooks remain")),
        "example.mod: create: boom; cleanup: hooks remain"
    );
    let created = host_entry(&candidate(Source::Builtin, Kind::Native, None));
    assert_eq!(created.status.phase, "created");
    assert_eq!(created.status.version, "2.1.0");
    assert!(created.dependencies.contains("mhf.base"));
}

/// A session of three Mods after startup: a provider, its consumer and an
/// unrelated Mod.
fn started(with_unrelated: bool) -> Lifecycle {
    let mut entries = vec![entry("provider", &[]), entry("consumer", &["provider"])];
    if with_unrelated {
        entries.push(entry("unrelated", &[]));
    }
    let count = entries.len();
    let mut lifecycle = Lifecycle::new(entries);
    for (phase, name) in [(PHASE_PREPARE, "prepare"), (PHASE_CHECK, "check"), (PHASE_ATTACH, "attach")] {
        lifecycle.begin_phase(phase, name).unwrap();
        for index in 0..count {
            lifecycle.record_phase(index, name, Ok(())).unwrap();
        }
        lifecycle.end_phase();
    }
    lifecycle
}

/// Runs one cleanup step in `order`, calling a Mod where the lifecycle says
/// it is due; `failing` names the Mod whose call fails.
fn cleanup(
    lifecycle: &mut Lifecycle,
    step: Cleanup,
    order: &[usize],
    failing: Option<&str>,
    events: &mut Vec<String>,
    mut errors: Vec<String>,
) -> Result<(), String> {
    let label = match step {
        Cleanup::Stop => "stop",
        Cleanup::Detach => "detach",
        Cleanup::PrepareRelease => "release",
    };
    let mut retained = IdSet::new();
    for &index in order {
        if !lifecycle.due(step, index, &retained) {
            continue;
        }
        let id = lifecycle.entries[index].id.clone();
        events.push(format!("{id}:{label}"));
        let result = if failing == Some(id.as_str()) { Err(format!("{label} failed")) } else { Ok(()) };
        lifecycle.record_cleanup(step, index, result, &mut retained, &mut errors);
    }
    lifecycle.finish_cleanup(step, &errors)
}

fn stop_all(lifecycle: &mut Lifecycle, failing: Option<&str>, events: &mut Vec<String>) -> Result<(), String> {
    let order: Vec<usize> = (0..lifecycle.entries.len()).rev().collect();
    cleanup(lifecycle, Cleanup::Stop, &order, failing, events, Vec::new())
}

fn detach_all(
    lifecycle: &mut Lifecycle,
    preferred: &[&str],
    stop_failing: Option<&str>,
    detach_failing: Option<&str>,
    events: &mut Vec<String>,
) -> Result<(), String> {
    let stop_error = stop_all(lifecycle, stop_failing, events).err();
    let preferred: Vec<String> = preferred.iter().map(|id| id.to_string()).collect();
    let order = teardown_order(&lifecycle.entries, &preferred).unwrap();
    cleanup(lifecycle, Cleanup::Detach, &order, detach_failing, events, stop_error.into_iter().collect())
}

fn release_all(lifecycle: &mut Lifecycle, failing: Option<&str>, events: &mut Vec<String>) -> Result<(), String> {
    lifecycle.release_allowed()?;
    let order: Vec<usize> = (0..lifecycle.entries.len()).rev().collect();
    cleanup(lifecycle, Cleanup::PrepareRelease, &order, failing, events, Vec::new())
}

#[test]
fn a_stop_failure_still_allows_unrelated_detachment() {
    let mut lifecycle = started(true);
    let mut events = Vec::new();
    assert!(detach_all(&mut lifecycle, &[], Some("consumer"), None, &mut events).is_err());
    assert_eq!(events, ["unrelated:stop", "consumer:stop", "unrelated:detach"]);
    assert!(lifecycle.must_retain());
}

#[test]
fn detach_failure_retains_providers_and_drop_does_not_retry_or_destroy() {
    let mut lifecycle = started(true);
    let mut events = Vec::new();
    let error = detach_all(&mut lifecycle, &["provider", "consumer"], None, Some("consumer"), &mut events).unwrap_err();
    assert_eq!(error, "consumer: detach: detach failed");
    assert!(!events.iter().any(|event| event == "provider:detach"));
    assert!(events.iter().any(|event| event == "unrelated:detach"));
    assert!(lifecycle.must_retain());
    assert_eq!(lifecycle.entries[1].status.phase, "detach_failed");
    assert!(lifecycle.entries[2].detached);
}

#[test]
fn dependency_order_overrides_builtin_preference_and_release_precedes_destroy() {
    let mut lifecycle = started(false);
    let mut events = Vec::new();
    detach_all(&mut lifecycle, &["provider", "consumer"], None, None, &mut events).unwrap();
    release_all(&mut lifecycle, None, &mut events).unwrap();
    events.push("game:release".into());
    assert!(!lifecycle.must_retain());
    for index in (0..lifecycle.entries.len()).rev() {
        events.push(format!("{}:destroy", lifecycle.entries[index].id));
    }
    assert_eq!(
        events,
        [
            "consumer:stop",
            "provider:stop",
            "consumer:detach",
            "provider:detach",
            "consumer:release",
            "provider:release",
            "game:release",
            "consumer:destroy",
            "provider:destroy"
        ]
    );
}

#[test]
fn release_failure_keeps_buffers_and_providers_resident() {
    let mut lifecycle = started(false);
    let mut events = Vec::new();
    detach_all(&mut lifecycle, &[], None, None, &mut events).unwrap();
    events.clear();
    assert_eq!(
        release_all(&mut lifecycle, Some("consumer"), &mut events).unwrap_err(),
        "consumer: prepare release: release failed"
    );
    assert_eq!(events, ["consumer:release"]);
    assert!(lifecycle.must_retain());
}

#[test]
fn a_detach_that_succeeded_is_not_called_again() {
    let mut lifecycle = started(false);
    assert!(lifecycle.detach_pending(1));
    lifecycle.record_detach_call(1);
    assert!(!lifecycle.detach_pending(1));
    assert!(lifecycle.detach_pending(0));
}

/// A session whose Mods have all prepared.
fn prepared() -> Lifecycle {
    let mut lifecycle = Lifecycle::new(vec![entry("provider", &[]), entry("consumer", &["provider"])]);
    lifecycle.begin_phase(PHASE_PREPARE, "prepare").unwrap();
    lifecycle.record_phase(0, "prepare", Ok(())).unwrap();
    lifecycle.record_phase(1, "prepare", Ok(())).unwrap();
    lifecycle.end_phase();
    lifecycle
}

const REFUSED: &str = "cannot launch in the current Mod lifecycle state";

#[test]
fn launch_is_refused_before_prepare() {
    let mut lifecycle = Lifecycle::new(vec![entry("provider", &[])]);
    assert_eq!(lifecycle.begin_launch(), Err(REFUSED.to_string()));
    assert!(!lifecycle.launch_finished);
}

#[test]
fn a_session_launches_once() {
    let mut lifecycle = prepared();
    assert_eq!(lifecycle.begin_launch(), Ok(()));
    assert_eq!(lifecycle.record_launch(0, OK, ""), Ok(true));
    assert_eq!(lifecycle.entries[0].status.phase, "launch_ready");
    assert!(!lifecycle.startup_failed && !lifecycle.shutting_down);
    assert_eq!(lifecycle.begin_launch(), Err(REFUSED.to_string()));
}

#[test]
fn cancelled_launch_shuts_down_without_failing() {
    let mut lifecycle = prepared();
    lifecycle.begin_launch().unwrap();
    assert_eq!(lifecycle.record_launch(0, CANCELLED, ""), Ok(false));
    assert_eq!(lifecycle.entries[0].status.phase, "cancelled");
    assert!(lifecycle.shutting_down && !lifecycle.startup_failed);
    assert!(lifecycle.begin_phase(PHASE_CHECK, "check").is_err());
}

#[test]
fn failed_launch_fails_startup_with_the_provider_error() {
    let mut lifecycle = prepared();
    lifecycle.begin_launch().unwrap();
    assert_eq!(
        lifecycle.record_launch(0, ERROR, "no game found"),
        Err("provider: launch: status 1: no game found".to_string())
    );
    assert!(lifecycle.startup_failed);
    assert_eq!(lifecycle.entries[0].status.phase, "failed");
    assert_eq!(lifecycle.entries[0].status.error.as_deref(), Some("status 1: no game found"));
}

#[test]
fn missing_launch_provider_fails_startup() {
    let mut lifecycle = prepared();
    lifecycle.launch_unavailable();
    assert!(lifecycle.startup_failed);
    assert_eq!(lifecycle.begin_launch(), Err(REFUSED.to_string()));
}

fn four_mods() -> Lifecycle {
    let entries = vec![
        entry("base", &[]),
        entry("provider", &["base"]),
        entry("consumer", &["provider"]),
        entry("unrelated", &[]),
    ];
    let count = entries.len();
    let mut lifecycle = Lifecycle::new(entries);
    for (phase, name) in [(PHASE_PREPARE, "prepare"), (PHASE_CHECK, "check"), (PHASE_ATTACH, "attach")] {
        lifecycle.begin_phase(phase, name).unwrap();
        for index in 0..count {
            lifecycle.record_phase(index, name, Ok(())).unwrap();
        }
        lifecycle.end_phase();
    }
    lifecycle
}

#[test]
fn a_failed_stop_pass_spares_every_transitive_provider() {
    let mut lifecycle = four_mods();
    let order = vec![3, 2, 1, 0];
    let fail_consumer = |index: usize, _pending: bool| {
        if index == 2 { (Err("busy".to_string()), false) } else { (Ok(()), false) }
    };
    let (calls, result) = lifecycle.cleanup_pass(Cleanup::Stop, &order, fail_consumer, Vec::new());
    assert_eq!(calls, vec![(3, true), (2, false)]);
    assert_eq!(result, Err("consumer: stop: busy".to_string()));
    assert!(!lifecycle.stopped && lifecycle.failed_cleanup);
    let succeed = |_index: usize, _pending: bool| (Ok(()), false);
    let (calls, result) = lifecycle.cleanup_pass(Cleanup::Stop, &order, succeed, Vec::new());
    assert_eq!(calls, vec![(2, true), (1, true), (0, true)]);
    assert_eq!(result, Ok(()));
    assert!(lifecycle.stopped);
}

#[test]
fn a_detach_pass_records_callbacks_that_succeeded() {
    let mut lifecycle = four_mods();
    let order = vec![3, 2, 1, 0];
    let succeed = |_index: usize, _pending: bool| (Ok(()), false);
    lifecycle.cleanup_pass(Cleanup::Stop, &order, succeed, Vec::new()).1.unwrap();
    let hooks_fail = |index: usize, pending: bool| {
        if index == 3 { (Err("hooks".to_string()), pending) } else { (Ok(()), pending) }
    };
    let (calls, result) = lifecycle.cleanup_pass(Cleanup::Detach, &order, hooks_fail, vec!["earlier".to_string()]);
    assert_eq!(calls, vec![(3, false), (2, true), (1, true), (0, true)]);
    assert_eq!(result, Err("earlier; unrelated: detach: hooks".to_string()));
    assert!(lifecycle.entries[3].detach_called && !lifecycle.entries[3].detached);
    let seen = RefCell::new(Vec::new());
    let retry = |index: usize, pending: bool| {
        seen.borrow_mut().push((index, pending));
        (Ok(()), pending)
    };
    let (calls, result) = lifecycle.cleanup_pass(Cleanup::Detach, &order, retry, Vec::new());
    assert_eq!(calls, vec![(3, true)]);
    assert_eq!(seen.into_inner(), vec![(3, false)]);
    assert_eq!(result, Ok(()));
}

#[test]
fn launch_calls_the_provider_once_in_its_window() {
    let calls = RefCell::new(0);
    let run = |index: usize| {
        assert_eq!(index, 1);
        *calls.borrow_mut() += 1;
        (OK, String::new())
    };
    let mut early = Lifecycle::new(vec![entry("provider", &[])]);
    assert_eq!(early.launch(Ok("consumer".to_string()), &run), Err(REFUSED.to_string()));
    let mut lifecycle = prepared();
    assert_eq!(lifecycle.launch(Ok("consumer".to_string()), &run), Ok(true));
    assert_eq!(lifecycle.launch(Ok("consumer".to_string()), &run), Err(REFUSED.to_string()));
    assert_eq!(*calls.borrow(), 1);
    assert_eq!(lifecycle.entries[1].status.phase, "launch_ready");
}

#[test]
fn launch_without_a_provider_fails_startup() {
    let run = |_index: usize| -> (i32, String) { panic!("no provider to call") };
    let mut lifecycle = prepared();
    assert_eq!(lifecycle.launch(Err("no launch provider".to_string()), run), Err("no launch provider".to_string()));
    assert!(lifecycle.startup_failed && lifecycle.launch_finished);
    let mut other = prepared();
    assert_eq!(
        other.launch(Ok("absent".to_string()), |_index: usize| (CANCELLED, String::new())),
        Err("absent: published provider is not part of this session".to_string())
    );
    assert!(!other.startup_failed);
    let mut cancelled = prepared();
    assert_eq!(cancelled.launch(Ok("provider".to_string()), |_index: usize| (CANCELLED, String::new())), Ok(false));
    assert!(cancelled.shutting_down);
}

use mhf_runtime::host::{
    choose_launch_provider, copy_outcome, finish_launch, launch_allowed, InterfaceRegistry,
    ModContext, ModStatus, FALLBACK_LAUNCH_INTERFACE_ID, LAUNCH_INTERFACE_ID,
};
use mhf_runtime::keyed::IdSet;
use mhf_runtime::status::{BUFFER_TOO_SMALL, CANCELLED, ERROR, OK, PHASE_CHECK, PHASE_PREPARE};

fn context(id: &str, dependencies: &[&str]) -> ModContext {
    let mut set = IdSet::new();
    for dependency in dependencies {
        set.insert(dependency.to_string());
    }
    ModContext::new(id.to_string(), set)
}

fn publish(registry: &mut InterfaceRegistry, id: &str, interface: &str, table: usize) {
    let mut provider = context(id, &[]);
    provider.begin_registration();
    provider.register(registry, interface, table).unwrap();
    provider.publish_interfaces(registry);
}

#[test]
fn interfaces_become_visible_only_when_their_phase_succeeds() {
    let mut registry = InterfaceRegistry::new();
    let mut provider = context("example.font", &[]);
    let consumer = context("example.ui", &["example.font"]);
    assert_eq!(
        provider.register(&registry, "font.v1", 0x10).unwrap_err(),
        "interfaces can only be registered while preparing or attaching"
    );
    provider.begin_registration();
    provider.register(&registry, "font.v1", 0x10).unwrap();
    assert_eq!(
        provider.register(&registry, "font.v1", 0x20).unwrap_err(),
        "interface font.v1 is already registered by example.font"
    );
    assert_eq!(
        consumer.interface(&registry, "example.font", "font.v1").unwrap_err(),
        "example.font has not published interface font.v1"
    );
    provider.publish_interfaces(&mut registry);
    assert_eq!(consumer.interface(&registry, "example.font", "font.v1"), Ok(0x10));
    assert_eq!(provider.interface(&registry, "example.font", "font.v1"), Ok(0x10));
    let stranger = context("example.other", &[]);
    assert_eq!(
        stranger.interface(&registry, "example.font", "font.v1").unwrap_err(),
        "example.other does not declare dependency example.font"
    );
    assert_eq!(
        provider.register(&registry, "font.v1", 0x30).unwrap_err(),
        "interface font.v1 is already registered by example.font"
    );
}

#[test]
fn failed_phases_discard_their_registrations() {
    let mut registry = InterfaceRegistry::new();
    let mut provider = context("example.font", &[]);
    provider.begin_registration();
    assert_eq!(provider.register(&registry, "font.v1", 0).unwrap_err(), "interface font.v1 has no table");
    provider.register(&registry, "font.v1", 0x10).unwrap();
    provider.discard_interfaces();
    provider.publish_interfaces(&mut registry);
    assert_eq!(registry.lookup("example.font", "font.v1"), None);
    provider.end_registration();
    assert!(provider.register(&registry, "font.v1", 0x10).is_err());
}

#[test]
fn launch_requires_one_provider_in_the_effective_tier() {
    let mut registry = InterfaceRegistry::new();
    assert_eq!(choose_launch_provider(&registry).unwrap_err(), "no Mod provides the launch interface");
    publish(&mut registry, "mhf.debug", FALLBACK_LAUNCH_INTERFACE_ID, 0x30);
    assert_eq!(choose_launch_provider(&registry), Ok(("mhf.debug".to_string(), 0x30)));
    publish(&mut registry, "mhf.login", LAUNCH_INTERFACE_ID, 0x10);
    assert_eq!(choose_launch_provider(&registry), Ok(("mhf.login".to_string(), 0x10)));
    publish(&mut registry, "example.launcher", LAUNCH_INTERFACE_ID, 0x20);
    assert_eq!(
        choose_launch_provider(&registry).unwrap_err(),
        "multiple Mods provide the launch interface: example.launcher, mhf.login"
    );
    assert_eq!(registry.providers(LAUNCH_INTERFACE_ID).len(), 2);
}

#[test]
fn launch_runs_once_between_prepare_and_check() {
    assert!(launch_allowed(false, false, false, PHASE_CHECK).is_ok());
    assert_eq!(
        launch_allowed(false, false, true, PHASE_CHECK).unwrap_err(),
        "cannot launch in the current Mod lifecycle state"
    );
    assert!(launch_allowed(true, false, false, PHASE_CHECK).is_err());
    assert!(launch_allowed(false, true, false, PHASE_CHECK).is_err());
    assert!(launch_allowed(false, false, false, PHASE_PREPARE).is_err());
}

#[test]
fn launch_answers_update_the_provider_status() {
    let status = || ModStatus {
        id: "mhf.login".into(),
        version: "1.0.0".into(),
        phase: "prepare".into(),
        error: None,
    };
    let mut ready = status();
    assert_eq!(finish_launch(&mut ready, OK, ""), Ok(true));
    assert_eq!(ready.phase, "launch_ready");
    let mut cancelled = status();
    assert_eq!(finish_launch(&mut cancelled, CANCELLED, ""), Ok(false));
    assert_eq!(cancelled.phase, "cancelled");
    let mut failed = status();
    assert_eq!(
        finish_launch(&mut failed, ERROR, "server unreachable"),
        Err("mhf.login: launch: status 1: server unreachable".to_string())
    );
    assert_eq!(failed.phase, "failed");
    assert_eq!(failed.error.as_deref(), Some("status 1: server unreachable"));
}

#[test]
fn text_copies_report_the_required_length() {
    assert_eq!(copy_outcome(5, 8), (OK, Some(5)));
    assert_eq!(copy_outcome(5, 4), (BUFFER_TOO_SMALL, Some(5)));
    assert_eq!(copy_outcome(0, 0), (OK, Some(0)));
    if usize::BITS > 32 {
        assert_eq!(copy_outcome(u32::MAX as usize + 1, u32::MAX), (ERROR, None));
    }
}

/// Publishes a launch provider for each ID, as a fallback where listed.
fn launch_registry(ids: &[&str], fallbacks: &[&str]) -> InterfaceRegistry {
    let mut registry = InterfaceRegistry::new();
    for (index, id) in ids.iter().enumerate() {
        let interface = if fallbacks.contains(id) { FALLBACK_LAUNCH_INTERFACE_ID } else { LAUNCH_INTERFACE_ID };
        publish(&mut registry, id, interface, 0x100 + index);
    }
    registry
}

#[test]
fn launch_overrides_fallbacks_independently_of_prepare_order() {
    for (ids, fallbacks, selected) in [
        (&["default"][..], &["default"][..], "default"),
        (&["default", "replacement"][..], &["default"][..], "replacement"),
        (&["replacement", "default"][..], &["default"][..], "replacement"),
        (&["first-default", "replacement", "second-default"][..], &["first-default", "second-default"][..], "replacement"),
    ] {
        let registry = launch_registry(ids, fallbacks);
        let (provider, table) = choose_launch_provider(&registry).unwrap();
        assert_eq!(provider, selected);
        let position = ids.iter().position(|id| *id == selected).unwrap();
        assert_eq!(table, 0x100 + position);
    }
}

#[test]
fn launch_rejects_ambiguity_within_the_effective_tier() {
    for (ids, fallbacks) in [
        (&["default", "first", "second"][..], &["default"][..]),
        (&["first", "second"][..], &["first", "second"][..]),
    ] {
        let registry = launch_registry(ids, fallbacks);
        let error = choose_launch_provider(&registry).unwrap_err();
        assert!(error.contains("first, second"), "{error}");
    }
}

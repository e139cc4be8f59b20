//! The built-in packages of an application build, and the `[mods]` section
//! of the shared configuration.

use vstd::prelude::*;
use crate::keyed::{IdMap, IdSet};
use crate::manifest::{Candidate, Kind, Manifest, Source, manifest_problem, valid_id, has_visible};
use crate::resolve::{Resolved, Selection, resolve, valid_resolution, some_problem, first_problem, duplicate_versions, only_needed, newest_versions, unmet_message, honours_selected_versions};
use crate::text::seq_less;
use crate::version::{Version, VersionReq, release_text, semver_req_valid};

verus! {

/// One Mod's entry in configuration.
pub struct ModSettings {
    /// `Some(false)` disables the Mod; `Some(true)` enables it.
    pub enabled: Option<bool>,
    /// A constraint on the version to load.
    pub version: Option<VersionReq>,
    /// The Mod's own settings, as TOML text; handed to the Mod unread.
    pub settings: String,
}

impl Default for ModSettings {
    fn default() -> (r: ModSettings)
        ensures
            r.enabled is None,
            r.version is None,
            r.settings@.len() == 0,
    {
        ModSettings { enabled: None, version: None, settings: String::new() }
    }
}

/// The `[mods]` section of the shared configuration.
pub struct RuntimeConfig {
    /// Where external packages are installed.
    pub directory: String,
    /// Settings by Mod ID.
    pub modules: IdMap<ModSettings>,
}

impl Default for RuntimeConfig {
    fn default() -> (r: RuntimeConfig)
        ensures
            r.directory@ == "mods"@,
            r.modules.spec_entries().len() == 0,
    {
        RuntimeConfig { directory: "mods".to_owned(), modules: IdMap::new() }
    }
}

/// The selection that each configured Mod makes, by ID.
pub open spec fn selection_entries(modules: Seq<(Seq<char>, ModSettings)>) -> Seq<(Seq<char>, Selection)> {
    modules.map_values(|e: (Seq<char>, ModSettings)| (e.0, Selection { enabled: e.1.enabled, version: e.1.version }))
}

impl RuntimeConfig {
    /// What configuration selects of each Mod: whether it is enabled, and
    /// which versions are allowed.
    pub fn selections(&self) -> (r: IdMap<Selection>)
        ensures
            r.spec_entries() == selection_entries(self.modules.spec_entries()),
    {
        let ghost modules = self.modules.spec_entries();
        self.modules.sorted_fact();
        let mut out: IdMap<Selection> = IdMap::new();
        let mut i: usize = 0;
        while i < self.modules.len()
            invariant
                i <= modules.len(),
                modules == self.modules.spec_entries(),
                crate::keyed::keys_sorted(modules),
                out.spec_entries() == selection_entries(modules.subrange(0, i as int)),
            decreases modules.len() - i,
        {
            let settings = self.modules.value_at(i);
            let selection = Selection {
                enabled: settings.enabled,
                version: match &settings.version {
                    Some(v) => Some(v.duplicate()),
                    None => None,
                },
            };
            let ghost before = out.spec_entries();
            proof {
                assert forall|k: int| 0 <= k < before.len() implies seq_less(#[trigger] before[k].0, modules[i as int].0) by {
                    assert(before[k].0 == modules[k].0);
                }
            }
            out.push_last(self.modules.key_at(i).clone(), selection);
            proof {
                assert(selection_entries(modules.subrange(0, i + 1)) =~= before.push(
                    (modules[i as int].0, Selection { enabled: modules[i as int].1.enabled, version: modules[i as int].1.version }),
                ));
            }
            i = i + 1;
        }
        proof {
            assert(modules.subrange(0, modules.len() as int) =~= modules);
        }
        out
    }
}

/// The packages compiled into an application build.
#[derive(Clone, Copy, Debug, PartialEq, Eq, Structural)]
pub struct BuiltinCatalog {
    pub login: bool,
    pub debug: bool,
    pub workbench: bool,
}

/// The IDs of the built-in packages, in catalog order.
pub open spec fn builtin_ids(catalog: BuiltinCatalog) -> Seq<Seq<char>> {
    seq!["mhf.config"@, "mhf.base"@] + (if catalog.login {
        seq!["mhf.login"@]
    } else {
        Seq::empty()
    }) + (if catalog.debug {
        seq!["mhf.debug"@]
    } else {
        Seq::empty()
    }) + (if catalog.workbench {
        seq!["mhf.workbench"@]
    } else {
        Seq::empty()
    })
}

/// The display name of a built-in package.
pub open spec fn builtin_name(id: Seq<char>) -> Seq<char> {
    if id == "mhf.config"@ {
        "配置服务"@
    } else if id == "mhf.base"@ {
        "基础支持"@
    } else if id == "mhf.login"@ {
        "登录启动"@
    } else if id == "mhf.debug"@ {
        "调试启动"@
    } else {
        "资源工作台"@
    }
}

/// The IDs that a built-in package depends on, in ID order.
pub open spec fn builtin_dependencies(id: Seq<char>) -> Seq<Seq<char>> {
    if id == "mhf.config"@ {
        Seq::empty()
    } else if id == "mhf.base"@ {
        seq!["mhf.config"@]
    } else if id == "mhf.login"@ {
        seq!["mhf.base"@, "mhf.config"@]
    } else {
        seq!["mhf.base"@]
    }
}

/// `m` is the manifest of built-in package `id`: schema 1, version 1.0.0,
/// native, without a DLL entry, depending on each of its dependencies at
/// "^1.0".
pub open spec fn builtin_manifest(m: Manifest, id: Seq<char>) -> bool {
    let deps = m.dependencies.spec_entries();
    &&& m.schema == 1
    &&& m.id@ == id
    &&& m.name@ == builtin_name(id)
    &&& m.version@ == release_text(1, 0, 0)
    &&& m.kind == Kind::Native
    &&& m.entry is None
    &&& deps.len() == builtin_dependencies(id).len()
    &&& forall|i: int| 0 <= i < deps.len() ==> (#[trigger] deps[i]).0 == builtin_dependencies(id)[i] && deps[i].1@ == "^1.0"@
}

/// `cands` are the built-in candidates `ids`, in order.
pub open spec fn builtins_are(cands: Seq<Candidate>, ids: Seq<Seq<char>>) -> bool {
    cands.len() == ids.len() && forall|i: int|
        0 <= i < cands.len() ==> (#[trigger] cands[i]).source == Source::Builtin && builtin_manifest(cands[i].manifest, ids[i])
}

/// The built-in candidate `id`, named `name`, depending on `deps` at `req`.
fn builtin(id: &str, name: &str, deps: Vec<&str>, req: &VersionReq) -> (r: Result<Candidate, String>)
    requires
        forall|i: int, j: int| 0 <= i < j < deps@.len() ==> seq_less(#[trigger] deps@[i]@, #[trigger] deps@[j]@),
        valid_id(id@),
        has_visible(name@),
        forall|i: int| 0 <= i < deps@.len() ==> valid_id(#[trigger] deps@[i]@),
    ensures
        r matches Ok(c) ==> c.source == Source::Builtin && c.manifest.schema == 1 && c.manifest.id@ == id@
            && c.manifest.name@ == name@ && c.manifest.version@ == release_text(1, 0, 0)
            && c.manifest.kind == Kind::Native && c.manifest.entry is None
            && c.manifest.dependencies.spec_entries().len() == deps@.len()
            && forall|i: int| 0 <= i < deps@.len() ==> (#[trigger] c.manifest.dependencies.spec_entries()[i]).0 == deps@[i]@
                && c.manifest.dependencies.spec_entries()[i].1 == *req,
        r is Ok,
{
    let mut dependencies: IdMap<VersionReq> = IdMap::new();
    let mut i: usize = 0;
    while i < deps.len()
        invariant
            i <= deps@.len(),
            forall|p: int, q: int| 0 <= p < q < deps@.len() ==> seq_less(#[trigger] deps@[p]@, #[trigger] deps@[q]@),
            dependencies.spec_entries().len() == i,
            forall|k: int| 0 <= k < i ==> (#[trigger] dependencies.spec_entries()[k]).0 == deps@[k]@
                && dependencies.spec_entries()[k].1 == *req,
        decreases deps.len() - i,
    {
        let ghost before = dependencies.spec_entries();
        proof {
            assert forall|k: int| 0 <= k < before.len() implies seq_less(#[trigger] before[k].0, deps@[i as int]@) by {
                assert(before[k].0 == deps@[k]@);
            }
        }
        dependencies.push_last(deps[i].to_string(), req.duplicate());
        i = i + 1;
    }
    proof {
        assert(forall|k: int| 0 <= k < dependencies.spec_entries().len() ==> valid_id(#[trigger] dependencies.spec_entries()[k].0));
    }
    Candidate::builtin(Manifest {
        schema: 1,
        id: id.to_string(),
        name: name.to_string(),
        version: Version::new(1, 0, 0),
        kind: Kind::Native,
        entry: None,
        dependencies,
    })
}

/// "mhf.base" comes before "mhf.config".
proof fn lemma_base_before_config()
    ensures
        seq_less("mhf.base"@, "mhf.config"@),
{
    reveal_strlit("mhf.base");
    reveal_strlit("mhf.config");
    reveal_with_fuel(seq_less, 6);
    let a = "mhf.base"@;
    let b = "mhf.config"@;
    assert(a.drop_first().drop_first().drop_first().drop_first() =~= seq!['b', 'a', 's', 'e']);
    assert(b.drop_first().drop_first().drop_first().drop_first() =~= seq!['c', 'o', 'n', 'f', 'i', 'g']);
}

fn push_builtin(out: &mut Vec<Candidate>, c: Candidate, Ghost(ids): Ghost<Seq<Seq<char>>>, Ghost(id): Ghost<Seq<char>>)
    requires
        builtins_are(old(out)@, ids),
        c.source == Source::Builtin,
        builtin_manifest(c.manifest, id),
    ensures
        builtins_are(final(out)@, ids.push(id)),
{
    out.push(c);
    proof {
        assert forall|i: int| 0 <= i < out@.len() implies (#[trigger] out@[i]).source == Source::Builtin && builtin_manifest(out@[i].manifest, ids.push(id)[i]) by {
            if i < ids.len() {
                assert(out@[i] == old(out)@[i]);
            }
        }
    }
}

/// A candidate built for `id` is its built-in manifest.
proof fn lemma_builtin_is(c: Candidate, id: Seq<char>, name: Seq<char>, deps: Seq<Seq<char>>, req: Seq<char>)
    requires
        req == "^1.0"@,
        name == builtin_name(id),
        deps == builtin_dependencies(id),
        c.source == Source::Builtin && c.manifest.schema == 1 && c.manifest.id@ == id
            && c.manifest.name@ == name && c.manifest.version@ == release_text(1, 0, 0)
            && c.manifest.kind == Kind::Native && c.manifest.entry is None
            && c.manifest.dependencies.spec_entries().len() == deps.len(),
        forall|i: int| 0 <= i < deps.len() ==> (#[trigger] c.manifest.dependencies.spec_entries()[i]).0 == deps[i]
            && c.manifest.dependencies.spec_entries()[i].1@ == req,
    ensures
        c.source == Source::Builtin,
        builtin_manifest(c.manifest, id),
{
}

impl BuiltinCatalog {
    /// The candidates of the compiled packages, in catalog order: the
    /// configuration provider and base support always, then login, debug and
    /// workbench where this build has them.
    pub fn candidates(&self) -> (r: Result<Vec<Candidate>, String>)
        ensures
            r is Ok <==> semver_req_valid("^1.0"@),
            r matches Ok(v) ==> builtins_are(v@, builtin_ids(*self)),
    {
        let req = VersionReq::parse("^1.0")?;
        proof {
            reveal_strlit("mhf.config");
            reveal_strlit("mhf.base");
            reveal_strlit("mhf.login");
            reveal_strlit("mhf.debug");
            reveal_strlit("mhf.workbench");
            reveal_strlit("配置服务");
            reveal_strlit("基础支持");
            reveal_strlit("登录启动");
            reveal_strlit("调试启动");
            reveal_strlit("资源工作台");
            lemma_base_before_config();
        }
        let mut out: Vec<Candidate> = Vec::new();
        let ghost mut ids: Seq<Seq<char>> = Seq::empty();
        assert(!crate::export::is_white_space("配置服务"@[0]));
        let c = builtin("mhf.config", "配置服务", vec![], &req).unwrap();
        proof {
            lemma_builtin_is(c, "mhf.config"@, "配置服务"@, Seq::empty(), req@);
        }
        push_builtin(&mut out, c, Ghost(ids), Ghost("mhf.config"@));
        proof { ids = ids.push("mhf.config"@); }
        assert(!crate::export::is_white_space("基础支持"@[0]));
        let c = builtin("mhf.base", "基础支持", vec!["mhf.config"], &req).unwrap();
        proof {
            lemma_builtin_is(c, "mhf.base"@, "基础支持"@, seq!["mhf.config"@], req@);
        }
        push_builtin(&mut out, c, Ghost(ids), Ghost("mhf.base"@));
        proof { ids = ids.push("mhf.base"@); }
        if self.login {
            assert(!crate::export::is_white_space("登录启动"@[0]));
            let c = builtin("mhf.login", "登录启动", vec!["mhf.base", "mhf.config"], &req).unwrap();
            proof {
                lemma_builtin_is(c, "mhf.login"@, "登录启动"@, seq!["mhf.base"@, "mhf.config"@], req@);
            }
            push_builtin(&mut out, c, Ghost(ids), Ghost("mhf.login"@));
            proof { ids = ids.push("mhf.login"@); }
        }
        if self.debug {
            assert(!crate::export::is_white_space("调试启动"@[0]));
            let c = builtin("mhf.debug", "调试启动", vec!["mhf.base"], &req).unwrap();
            proof {
                assert("mhf.debug"@[4] != "mhf.login"@[4]);
                lemma_builtin_is(c, "mhf.debug"@, "调试启动"@, seq!["mhf.base"@], req@);
            }
            push_builtin(&mut out, c, Ghost(ids), Ghost("mhf.debug"@));
            proof { ids = ids.push("mhf.debug"@); }
        }
        if self.workbench {
            assert(!crate::export::is_white_space("资源工作台"@[0]));
            let c = builtin("mhf.workbench", "资源工作台", vec!["mhf.base"], &req).unwrap();
            proof {
                lemma_builtin_is(c, "mhf.workbench"@, "资源工作台"@, seq!["mhf.base"@], req@);
            }
            push_builtin(&mut out, c, Ghost(ids), Ghost("mhf.workbench"@));
            proof { ids = ids.push("mhf.workbench"@); }
        }
        assert(ids =~= builtin_ids(*self));
        Ok(out)
    }

    /// Resolves configuration against `candidates` with this build's
    /// defaults: login where it is compiled in. Nothing is required; which
    /// startup provider runs is chosen by Mod configuration.
    pub fn resolve(&self, config: &RuntimeConfig, candidates: &Vec<Candidate>) -> (r: Result<Resolved, String>)
        ensures
            some_problem(candidates@) ==> (r matches Err(m) && first_problem(candidates@, m@)),
            duplicate_versions(candidates@) ==> r is Err,
            r matches Ok(res) ==> valid_resolution(
                candidates@,
                selection_entries(config.modules.spec_entries()),
                catalog_defaults(*self),
                Set::empty(),
                res.mods@,
            ) && honours_selected_versions(selection_entries(config.modules.spec_entries()), res.mods@) && only_needed(
                selection_entries(config.modules.spec_entries()),
                catalog_defaults(*self),
                Set::empty(),
                res.mods@,
            ) && newest_versions(
                candidates@,
                selection_entries(config.modules.spec_entries()),
                catalog_defaults(*self),
                Set::empty(),
                res.mods@,
            ),
            !some_problem(candidates@) && !duplicate_versions(candidates@) && (exists|mods: Seq<Candidate>|
                valid_resolution(
                    candidates@,
                    selection_entries(config.modules.spec_entries()),
                    catalog_defaults(*self),
                    Set::empty(),
                    mods,
                )) ==> r is Ok,
            !some_problem(candidates@) && !duplicate_versions(candidates@) ==> (r matches Err(m) ==> unmet_message(m@)),
    {
        let mut defaults = IdSet::new();
        if self.login {
            defaults.insert("mhf.login".to_owned());
        }
        let required = IdSet::new();
        let selections = config.selections();
        proof {
            assert(defaults@ =~= catalog_defaults(*self));
            assert(required@ =~= Set::<Seq<char>>::empty());
        }
        resolve(candidates, &selections, &defaults, &required)
    }
}

/// This build's default Mods: login where it is compiled in.
pub open spec fn catalog_defaults(catalog: BuiltinCatalog) -> Set<Seq<char>> {
    if catalog.login {
        set!["mhf.login"@]
    } else {
        Set::empty()
    }
}

} // verus!

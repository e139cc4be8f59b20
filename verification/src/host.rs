//! The host side of the Mod interface registry: what each Mod registers,
//! when it becomes visible, who may look it up, and which provider runs the
//! game's launch.

use vstd::prelude::*;
use crate::keyed::{IdMap, IdSet, has_key, value_for, keys_sorted};
use crate::status::{Status, OK, ERROR, BUFFER_TOO_SMALL, CANCELLED, PHASE_CHECK};
use crate::text::{push_str, push_chars, string_of, string_views, joined, signed, signed_decimal};

verus! {

/// The interface ID of ordinary launch providers.
pub const LAUNCH_INTERFACE_ID: &'static str = "mhf.launch.v1";

/// The interface ID of fallback launch providers, used only when no Mod
/// publishes an ordinary one.
pub const FALLBACK_LAUNCH_INTERFACE_ID: &'static str = "mhf.launch.fallback.v1";

/// The table that `provider` published under `interface`, if any.
pub open spec fn table_of(reg: Seq<(Seq<char>, IdMap<usize>)>, provider: Seq<char>, interface: Seq<char>) -> Option<usize> {
    if has_key(reg, provider) && has_key(value_for(reg, provider).spec_entries(), interface) {
        Some(value_for(value_for(reg, provider).spec_entries(), interface))
    } else {
        None
    }
}

/// The providers that publish `interface`, with their tables, in provider
/// order.
pub open spec fn publishers(reg: Seq<(Seq<char>, IdMap<usize>)>, interface: Seq<char>) -> Seq<(Seq<char>, usize)>
    decreases reg.len(),
{
    if reg.len() == 0 {
        Seq::empty()
    } else {
        let rest = publishers(reg.drop_last(), interface);
        let inner = reg.last().1.spec_entries();
        if has_key(inner, interface) {
            rest.push((reg.last().0, value_for(inner, interface)))
        } else {
            rest
        }
    }
}

/// Every interface that the Mods of a session have published, by provider
/// and interface ID. An entry is never replaced.
pub struct InterfaceRegistry {
    providers: IdMap<IdMap<usize>>,
}

impl InterfaceRegistry {
    /// The published table of `provider` under `interface`.
    pub closed spec fn table(&self, provider: Seq<char>, interface: Seq<char>) -> Option<usize> {
        table_of(self.providers.spec_entries(), provider, interface)
    }

    /// The providers of `interface`, in provider order.
    pub closed spec fn spec_publishers(&self, interface: Seq<char>) -> Seq<(Seq<char>, usize)> {
        publishers(self.providers.spec_entries(), interface)
    }

    /// An empty registry.
    pub fn new() -> (r: InterfaceRegistry)
        ensures
            forall|p: Seq<char>, i: Seq<char>| r.table(p, i) is None,
            forall|i: Seq<char>| r.spec_publishers(i).len() == 0,
    {
        InterfaceRegistry { providers: IdMap::new() }
    }

    /// The table that `provider` published under `interface`.
    pub fn lookup(&self, provider: &str, interface: &str) -> (r: Option<usize>)
        ensures
            r == self.table(provider@, interface@),
    {
        match self.providers.get(provider) {
            Some(inner) => match inner.get(interface) {
                Some(table) => Some(*table),
                None => None,
            },
            None => None,
        }
    }

    /// The providers of `interface` and their tables, in provider order.
    pub fn providers(&self, interface: &str) -> (r: Vec<(String, usize)>)
        ensures
            r@.len() == self.spec_publishers(interface@).len(),
            forall|k: int| 0 <= k < r@.len() ==> (#[trigger] r@[k]).0@ == self.spec_publishers(interface@)[k].0
                && r@[k].1 == self.spec_publishers(interface@)[k].1,
    {
        let ghost reg = self.providers.spec_entries();
        let mut out: Vec<(String, usize)> = Vec::new();
        let mut k: usize = 0;
        while k < self.providers.len()
            invariant
                k <= reg.len(),
                reg == self.providers.spec_entries(),
                out@.len() == publishers(reg.subrange(0, k as int), interface@).len(),
                forall|m: int| 0 <= m < out@.len() ==> (#[trigger] out@[m]).0@ == publishers(reg.subrange(0, k as int), interface@)[m].0
                    && out@[m].1 == publishers(reg.subrange(0, k as int), interface@)[m].1,
            decreases reg.len() - k,
        {
            proof {
                assert(reg.subrange(0, k + 1).drop_last() =~= reg.subrange(0, k as int));
                assert(reg.subrange(0, k + 1).last() == reg[k as int]);
            }
            let inner = self.providers.value_at(k);
            match inner.get(interface) {
                Some(table) => {
                    out.push((self.providers.key_at(k).clone(), *table));
                },
                None => {},
            }
            k = k + 1;
        }
        proof {
            assert(reg.subrange(0, reg.len() as int) =~= reg);
        }
        out
    }

    /// Records `table` as `provider`'s `interface`.
    fn publish(&mut self, provider: &str, interface: &str, table: usize)
        ensures
            final(self).table(provider@, interface@) == Some(table),
            forall|p: Seq<char>, i: Seq<char>| !(p == provider@ && i == interface@) ==> final(self).table(p, i) == old(self).table(p, i),
    {
        let mut inner: IdMap<usize> = match self.providers.get(provider) {
            Some(existing) => existing.duplicate(),
            None => IdMap::new(),
        };
        let ghost before = inner.spec_entries();
        inner.insert(interface.to_owned(), table);
        let ghost after = inner.spec_entries();
        let ghost outer = self.providers.spec_entries();
        self.providers.insert(provider.to_owned(), inner);
        proof {
            assert forall|p: Seq<char>, i: Seq<char>| !(p == provider@ && i == interface@) implies self.table(p, i) == old(self).table(p, i) by {
                if p == provider@ {
                    assert(value_for(self.providers.spec_entries(), p).spec_entries() == after);
                    if has_key(outer, p) {
                        assert(before == value_for(outer, p).spec_entries());
                    } else {
                        assert(!has_key(before, i));
                    }
                }
            }
        }
    }
}

/// The host's view of one loaded Mod: its ID, its declared dependencies,
/// whether it may register interfaces now, and what it registered in the
/// current phase but has not yet published.
pub struct ModContext {
    id: String,
    dependencies: IdSet,
    registering: bool,
    pending: IdMap<usize>,
}

impl ModContext {
    /// The Mod's ID.
    pub closed spec fn spec_id(&self) -> Seq<char> {
        self.id@
    }

    /// Whether the Mod declares a dependency on `provider`.
    pub closed spec fn depends_on(&self, provider: Seq<char>) -> bool {
        self.dependencies.has(provider)
    }

    /// Whether registration is open: during prepare or attach.
    pub closed spec fn spec_registering(&self) -> bool {
        self.registering
    }

    /// The table registered under `interface` in this phase, if any.
    pub closed spec fn pending_table(&self, interface: Seq<char>) -> Option<usize> {
        if has_key(self.pending.spec_entries(), interface) {
            Some(value_for(self.pending.spec_entries(), interface))
        } else {
            None
        }
    }

    /// A context for Mod `id` with the given dependencies.
    pub fn new(id: String, dependencies: IdSet) -> (r: ModContext)
        ensures
            r.spec_id() == id@,
            forall|p: Seq<char>| r.depends_on(p) == dependencies.has(p),
            !r.spec_registering(),
            forall|i: Seq<char>| r.pending_table(i) is None,
    {
        ModContext { id, dependencies, registering: false, pending: IdMap::new() }
    }

    /// The Mod's ID.
    pub fn id(&self) -> (r: &str)
        ensures
            r@ == self.spec_id(),
    {
        self.id.as_str()
    }

    /// Opens registration, for prepare or attach.
    pub fn begin_registration(&mut self)
        ensures
            final(self).spec_registering(),
            final(self).spec_id() == old(self).spec_id(),
            forall|p: Seq<char>| final(self).depends_on(p) == old(self).depends_on(p),
            forall|i: Seq<char>| final(self).pending_table(i) == old(self).pending_table(i),
    {
        self.registering = true;
    }

    /// Closes registration.
    pub fn end_registration(&mut self)
        ensures
            !final(self).spec_registering(),
            final(self).spec_id() == old(self).spec_id(),
            forall|p: Seq<char>| final(self).depends_on(p) == old(self).depends_on(p),
            forall|i: Seq<char>| final(self).pending_table(i) == old(self).pending_table(i),
    {
        self.registering = false;
    }

    /// Registers `table` under `interface`. It becomes visible when the
    /// phase that registered it succeeds. Refused outside prepare and
    /// attach, for a null table, and for an interface this Mod already
    /// published or registered.
    pub fn register(&mut self, registry: &InterfaceRegistry, interface: &str, table: usize) -> (r: Result<(), String>)
        ensures
            final(self).spec_id() == old(self).spec_id(),
            final(self).spec_registering() == old(self).spec_registering(),
            forall|p: Seq<char>| final(self).depends_on(p) == old(self).depends_on(p),
            !old(self).spec_registering() ==> (r matches Err(m) && m@ == "interfaces can only be registered while preparing or attaching"@),
            old(self).spec_registering() && table == 0 ==> (r matches Err(m) && m@ == "interface "@ + interface@ + " has no table"@),
            old(self).spec_registering() && table != 0 && (registry.table(old(self).spec_id(), interface@) is Some
                || old(self).pending_table(interface@) is Some) ==> (r matches Err(m) && m@ == "interface "@ + interface@
                + " is already registered by "@ + old(self).spec_id()),
            r is Ok <==> old(self).spec_registering() && table != 0 && registry.table(old(self).spec_id(), interface@) is None
                && old(self).pending_table(interface@) is None,
            r is Ok ==> final(self).pending_table(interface@) == Some(table),
            forall|i: Seq<char>| (r is Err || i != interface@) ==> final(self).pending_table(i) == old(self).pending_table(i),
    {
        if !self.registering {
            proof {
                reveal_strlit("interfaces can only be registered while preparing or attaching");
            }
            return Err("interfaces can only be registered while preparing or attaching".to_owned());
        }
        if table == 0 {
            let mut out: Vec<char> = Vec::new();
            push_str(&mut out, "interface ");
            push_str(&mut out, interface);
            push_str(&mut out, " has no table");
            return Err(string_of(&out));
        }
        if registry.lookup(self.id.as_str(), interface).is_some() || self.pending.contains(interface) {
            let mut out: Vec<char> = Vec::new();
            push_str(&mut out, "interface ");
            push_str(&mut out, interface);
            push_str(&mut out, " is already registered by ");
            push_str(&mut out, self.id.as_str());
            return Err(string_of(&out));
        }
        self.pending.insert(interface.to_owned(), table);
        Ok(())
    }

    /// The table of `provider`'s `interface`, for this Mod: only its own
    /// interfaces and those of declared dependencies are visible.
    pub fn interface(&self, registry: &InterfaceRegistry, provider: &str, interface: &str) -> (r: Result<usize, String>)
        ensures
            provider@ != self.spec_id() && !self.depends_on(provider@) ==> (r matches Err(m) && m@ == self.spec_id()
                + " does not declare dependency "@ + provider@),
            (provider@ == self.spec_id() || self.depends_on(provider@)) ==> match registry.table(provider@, interface@) {
                Some(t) => r == Ok::<usize, String>(t),
                None => r matches Err(m) && m@ == provider@ + " has not published interface "@ + interface@,
            },
    {
        if !crate::text::same_text(provider, self.id.as_str()) && !self.dependencies.contains(provider) {
            let mut out: Vec<char> = Vec::new();
            push_str(&mut out, self.id.as_str());
            push_str(&mut out, " does not declare dependency ");
            push_str(&mut out, provider);
            return Err(string_of(&out));
        }
        match registry.lookup(provider, interface) {
            Some(table) => Ok(table),
            None => {
                let mut out: Vec<char> = Vec::new();
                push_str(&mut out, provider);
                push_str(&mut out, " has not published interface ");
                push_str(&mut out, interface);
                Err(string_of(&out))
            },
        }
    }

    /// Publishes everything registered in the phase that just succeeded.
    pub fn publish_interfaces(&mut self, registry: &mut InterfaceRegistry)
        ensures
            final(self).spec_id() == old(self).spec_id(),
            final(self).spec_registering() == old(self).spec_registering(),
            forall|p: Seq<char>| final(self).depends_on(p) == old(self).depends_on(p),
            forall|i: Seq<char>| final(self).pending_table(i) is None,
            forall|p: Seq<char>, i: Seq<char>| final(registry).table(p, i) == if p == old(self).spec_id() && old(self).pending_table(i) is Some {
                old(self).pending_table(i)
            } else {
                old(registry).table(p, i)
            },
    {
        let ghost pending = self.pending.spec_entries();
        self.pending.sorted_fact();
        let mut k: usize = 0;
        while k < self.pending.len()
            invariant
                k <= pending.len(),
                pending == self.pending.spec_entries(),
                keys_sorted(pending),
                self.id == old(self).id,
                forall|p: Seq<char>, i: Seq<char>| registry.table(p, i) == if p == self.id@ && exists|m: int| 0 <= m < k && #[trigger] pending[m].0 == i {
                    Some(value_for(pending, i))
                } else {
                    old(registry).table(p, i)
                },
            decreases pending.len() - k,
        {
            let interface = self.pending.key_at(k);
            let table = *self.pending.value_at(k);
            proof {
                crate::keyed::lemma_value_at(pending, k as int);
            }
            registry.publish(self.id.as_str(), interface.as_str(), table);
            k = k + 1;
        }
        self.pending = IdMap::new();
    }

    /// Drops what was registered in a phase that failed.
    pub fn discard_interfaces(&mut self)
        ensures
            final(self).spec_id() == old(self).spec_id(),
            final(self).spec_registering() == old(self).spec_registering(),
            forall|p: Seq<char>| final(self).depends_on(p) == old(self).depends_on(p),
            forall|i: Seq<char>| final(self).pending_table(i) is None,
    {
        self.pending = IdMap::new();
    }
}

/// The providers in the effective launch tier: the ordinary ones, or the
/// fallback ones when there is no ordinary one.
pub open spec fn launch_tier(registry: InterfaceRegistry) -> Seq<(Seq<char>, usize)> {
    if registry.spec_publishers(LAUNCH_INTERFACE_ID@).len() > 0 {
        registry.spec_publishers(LAUNCH_INTERFACE_ID@)
    } else {
        registry.spec_publishers(FALLBACK_LAUNCH_INTERFACE_ID@)
    }
}

/// The one provider of the effective launch tier. The tier must have
/// exactly one; otherwise the refusal says that none or which several do.
pub fn choose_launch_provider(registry: &InterfaceRegistry) -> (r: Result<(String, usize), String>)
    ensures
        launch_tier(*registry).len() == 1 ==> (r matches Ok(c) && c.0@ == launch_tier(*registry)[0].0 && c.1
            == launch_tier(*registry)[0].1),
        launch_tier(*registry).len() == 0 ==> (r matches Err(m) && m@ == "no Mod provides the launch interface"@),
        launch_tier(*registry).len() > 1 ==> (r matches Err(m) && m@ == "multiple Mods provide the launch interface: "@
            + joined(launch_tier(*registry).map_values(|p: (Seq<char>, usize)| p.0), ", "@)),
{
    let mut providers = registry.providers(LAUNCH_INTERFACE_ID);
    if providers.len() == 0 {
        providers = registry.providers(FALLBACK_LAUNCH_INTERFACE_ID);
    }
    let ghost tier = launch_tier(*registry);
    if providers.len() == 1 {
        let (id, table) = providers.remove(0);
        return Ok((id, table));
    }
    if providers.len() == 0 {
        proof {
            reveal_strlit("no Mod provides the launch interface");
        }
        return Err("no Mod provides the launch interface".to_owned());
    }
    let mut names: Vec<String> = Vec::new();
    let mut k: usize = 0;
    while k < providers.len()
        invariant
            k <= providers@.len(),
            providers@.len() == tier.len(),
            forall|m: int| 0 <= m < providers@.len() ==> (#[trigger] providers@[m]).0@ == tier[m].0,
            string_views(names@) == tier.map_values(|p: (Seq<char>, usize)| p.0).subrange(0, k as int),
        decreases providers.len() - k,
    {
        let ghost before = names@;
        names.push(providers[k].0.clone());
        proof {
            assert(string_views(names@) =~= string_views(before).push(providers@[k as int].0@));
        }
        k = k + 1;
    }
    proof {
        assert(tier.map_values(|p: (Seq<char>, usize)| p.0).subrange(0, k as int) =~= tier.map_values(|p: (Seq<char>, usize)| p.0));
    }
    let listed = crate::text::join_strings(&names, ", ");
    let mut out: Vec<char> = Vec::new();
    push_str(&mut out, "multiple Mods provide the launch interface: ");
    push_str(&mut out, listed.as_str());
    Err(string_of(&out))
}

/// How the host answers a request to copy `length` bytes of text into a
/// buffer of `capacity` bytes: the status, and the length it reports when
/// it reports one. A length beyond `u32` is an error without a report.
pub fn copy_outcome(length: usize, capacity: u32) -> (r: (Status, Option<u32>))
    ensures
        length > u32::MAX ==> r == (ERROR, None::<u32>),
        length <= u32::MAX && capacity < length ==> r == (BUFFER_TOO_SMALL, Some(length as u32)),
        length <= u32::MAX && capacity >= length ==> r == (OK, Some(length as u32)),
{
    if length > u32::MAX as usize {
        return (ERROR, None);
    }
    let length = length as u32;
    if capacity < length {
        (BUFFER_TOO_SMALL, Some(length))
    } else {
        (OK, Some(length))
    }
}

/// What the host reports about one loaded Mod.
#[derive(Clone, Debug)]
pub struct ModStatus {
    pub id: String,
    pub version: String,
    /// The last lifecycle step, such as "prepare", "launch_ready" or "failed".
    pub phase: String,
    pub error: Option<String>,
}

/// Whether the launch may run now: once, after prepare and before check,
/// while startup has neither failed nor been cancelled.
pub fn launch_allowed(startup_failed: bool, shutting_down: bool, launch_finished: bool, next_phase: u32) -> (r: Result<(), String>)
    ensures
        r is Ok <==> !startup_failed && !shutting_down && !launch_finished && next_phase == PHASE_CHECK,
        r matches Err(m) ==> m@ == "cannot launch in the current Mod lifecycle state"@,
{
    if startup_failed || shutting_down || launch_finished || next_phase != PHASE_CHECK {
        proof {
            reveal_strlit("cannot launch in the current Mod lifecycle state");
        }
        return Err("cannot launch in the current Mod lifecycle state".to_owned());
    }
    Ok(())
}

/// The message of a failed launch: "status <status>: <error>".
pub open spec fn launch_failure(status: Status, context_error: Seq<char>) -> Seq<char> {
    "status "@ + signed_decimal(status as int) + ": "@ + context_error
}

/// Records the launch provider's answer in its status. OK means the launch
/// data is ready; CANCELLED means the user cancelled, and the session shuts
/// down without a startup failure; anything else is a failure, with the
/// provider's last logged error.
pub fn finish_launch(entry: &mut ModStatus, status: Status, context_error: &str) -> (r: Result<bool, String>)
    ensures
        final(entry).id == old(entry).id,
        final(entry).version == old(entry).version,
        status == OK ==> r == Ok::<bool, String>(true) && final(entry).phase@ == "launch_ready"@ && final(entry).error == old(entry).error,
        status == CANCELLED ==> r == Ok::<bool, String>(false) && final(entry).phase@ == "cancelled"@ && final(entry).error == old(entry).error,
        status != OK && status != CANCELLED ==> {
            &&& final(entry).phase@ == "failed"@
            &&& final(entry).error matches Some(e) && e@ == launch_failure(status, context_error@)
            &&& r matches Err(m) && m@ == old(entry).id@ + ": launch: "@ + launch_failure(status, context_error@)
        },
{
    if status == OK {
        entry.phase = "launch_ready".to_owned();
        return Ok(true);
    }
    if status == CANCELLED {
        entry.phase = "cancelled".to_owned();
        return Ok(false);
    }
    let mut error: Vec<char> = Vec::new();
    push_str(&mut error, "status ");
    let digits = signed(status as i64);
    push_chars(&mut error, &digits);
    push_str(&mut error, ": ");
    push_str(&mut error, context_error);
    let error = string_of(&error);
    let mut message: Vec<char> = Vec::new();
    push_str(&mut message, entry.id.as_str());
    push_str(&mut message, ": launch: ");
    push_str(&mut message, error.as_str());
    entry.phase = "failed".to_owned();
    entry.error = Some(error);
    Err(string_of(&message))
}

} // verus!

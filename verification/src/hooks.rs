//! The callback slot that a hook group shares with its detours, and owned
//! references to loaded modules.
//!
//! Locks and waiting belong to the caller; these types hold the decisions:
//! when an invocation gets state, when the last one has left, and when a
//! module reference still has to be released.

use vstd::prelude::*;
use std::sync::Arc;

verus! {

/// What a slot holds: whether its group is installed or awaiting cleanup,
/// the state its detours use, and how many invocations hold that state.
pub struct HookSlotView<T> {
    pub occupied: bool,
    pub state: Option<Arc<T>>,
    pub active: nat,
}

/// The callback slot of one hook group.
pub struct HookSlot<T> {
    occupied: bool,
    state: Option<Arc<T>>,
    active: usize,
}

/// A detour's lease on the slot's state, from `enter` until `leave`.
pub struct Invocation<T> {
    state: Option<Arc<T>>,
}

impl<T> View for HookSlot<T> {
    type V = HookSlotView<T>;

    closed spec fn view(&self) -> HookSlotView<T> {
        HookSlotView { occupied: self.occupied, state: self.state, active: self.active as nat }
    }
}

/// The slot after an invocation enters: it holds the state, if any, and
/// counts the invocation only when it got state.
pub open spec fn after_enter<T>(v: HookSlotView<T>) -> HookSlotView<T> {
    HookSlotView { active: if v.state is Some { v.active + 1 } else { v.active }, ..v }
}

/// The slot after an invocation that held state (`held`) leaves.
pub open spec fn after_leave<T>(v: HookSlotView<T>, held: bool) -> HookSlotView<T> {
    HookSlotView { active: if held { (v.active - 1) as nat } else { v.active }, ..v }
}

impl<T> Invocation<T> {
    /// The state this invocation holds.
    pub closed spec fn held(&self) -> Option<Arc<T>> {
        self.state
    }

    /// The state, or `None` when the slot was empty: a late detour then
    /// calls the unhooked target.
    pub fn state(&self) -> (r: Option<&T>)
        ensures
            r is Some <==> self.held() is Some,
            r matches Some(t) ==> *t == *self.held().unwrap(),
    {
        match &self.state {
            Some(state) => Some(&**state),
            None => None,
        }
    }
}

impl<T> HookSlot<T> {
    /// An empty, unoccupied slot.
    pub fn new() -> (r: HookSlot<T>)
        ensures
            r@ == (HookSlotView::<T> { occupied: false, state: None, active: 0 }),
    {
        HookSlot { occupied: false, state: None, active: 0 }
    }

    /// Whether a new group may be prepared on this slot: not while one is
    /// installed or awaiting cleanup.
    pub fn check_free(&self) -> (r: Result<(), String>)
        ensures
            r is Ok <==> !self@.occupied,
            r matches Err(m) ==> m@ == "hook group is already installed or awaiting cleanup"@,
    {
        if self.occupied {
            proof {
                reveal_strlit("hook group is already installed or awaiting cleanup");
            }
            Err("hook group is already installed or awaiting cleanup".to_owned())
        } else {
            Ok(())
        }
    }

    /// Publishes the state of an installing group, before its hooks are
    /// enabled.
    pub fn publish(&mut self, state: T)
        ensures
            final(self)@ == (HookSlotView { occupied: true, state: Some(Arc::new(state)), active: old(self)@.active }),
    {
        self.occupied = true;
        self.state = Some(Arc::new(state));
    }

    /// Pins the current state until the invocation leaves.
    pub fn enter(&mut self) -> (r: Invocation<T>)
        requires
            old(self)@.state is Some ==> old(self)@.active < usize::MAX,
        ensures
            final(self)@ == after_enter(old(self)@),
            r.held() == old(self)@.state,
    {
        let state = match &self.state {
            Some(s) => Some(s.clone()),
            None => None,
        };
        if state.is_some() {
            self.active = self.active + 1;
        }
        Invocation { state }
    }

    /// Ends an invocation. Returns whether it was the last one holding
    /// state, so that a waiting retirement can go on.
    pub fn leave(&mut self, invocation: Invocation<T>) -> (idle: bool)
        requires
            invocation.held() is Some ==> old(self)@.active > 0,
        ensures
            final(self)@ == after_leave(old(self)@, invocation.held() is Some),
            idle == (invocation.held() is Some && final(self)@.active == 0),
    {
        if invocation.state.is_some() {
            self.active = self.active - 1;
            self.active == 0
        } else {
            false
        }
    }

    /// Takes the state away from new invocations. The caller waits until
    /// `is_idle` before it frees anything the state refers to.
    pub fn retire(&mut self) -> (r: Option<Arc<T>>)
        ensures
            r == old(self)@.state,
            final(self)@ == (HookSlotView::<T> { state: None, ..old(self)@ }),
    {
        let mut state: Option<Arc<T>> = None;
        std::mem::swap(&mut state, &mut self.state);
        state
    }

    /// Whether no invocation holds state.
    pub fn is_idle(&self) -> (r: bool)
        ensures
            r == (self@.active == 0),
    {
        self.active == 0
    }

    /// How many invocations hold state.
    pub fn active(&self) -> (r: usize)
        ensures
            r == self@.active,
    {
        self.active
    }

    /// Marks the group's removal complete; the slot may be prepared again.
    pub fn vacate(&mut self)
        ensures
            final(self)@ == (HookSlotView::<T> { occupied: false, ..old(self)@ }),
    {
        self.occupied = false;
    }
}

/// An invocation that leaves again gives back exactly what it took: the
/// slot is as before.
pub proof fn leave_undoes_enter<T>(v: HookSlotView<T>)
    ensures
        after_leave(after_enter(v), v.state is Some) == v,
{
}

/// Once the state is retired, new invocations get none and are not counted,
/// so the count of holders can only fall until it reaches zero.
pub proof fn retired_slot_lends_nothing<T>(v: HookSlotView<T>)
    requires
        v.state is None,
    ensures
        after_enter(v) == v,
        after_enter(v).state is None,
{
}

/// One operation on a hook slot, as its methods perform it.
pub enum SlotEvent<T> {
    Publish(Arc<T>),
    Enter,
    Leave(bool),
    Retire,
    Vacate,
}

/// The slot after one operation, as the methods' contracts state it.
pub open spec fn slot_step<T>(v: HookSlotView<T>, e: SlotEvent<T>) -> HookSlotView<T> {
    match e {
        SlotEvent::Publish(state) => HookSlotView { occupied: true, state: Some(state), active: v.active },
        SlotEvent::Enter => after_enter(v),
        SlotEvent::Leave(held) => after_leave(v, held),
        SlotEvent::Retire => HookSlotView { state: None, ..v },
        SlotEvent::Vacate => HookSlotView { occupied: false, ..v },
    }
}

/// The slot after a run of operations.
pub open spec fn slot_after<T>(v: HookSlotView<T>, events: Seq<SlotEvent<T>>) -> HookSlotView<T>
    decreases events.len(),
{
    if events.len() == 0 {
        v
    } else {
        slot_step(slot_after(v, events.drop_last()), events.last())
    }
}

/// A group is installed after `events`: some publication happened and no
/// retirement followed it.
pub open spec fn installed<T>(events: Seq<SlotEvent<T>>) -> bool
    decreases events.len(),
{
    if events.len() == 0 {
        false
    } else {
        match events.last() {
            SlotEvent::Publish(_) => true,
            SlotEvent::Retire => false,
            _ => installed(events.drop_last()),
        }
    }
}

/// Starting from a new slot, an invocation gets state exactly between a
/// group's publication and its retirement: the slot holds state after a run
/// of operations exactly when a group is installed.
pub proof fn slot_lends_state_while_installed<T>(events: Seq<SlotEvent<T>>)
    ensures
        slot_after(HookSlotView::<T> { occupied: false, state: None, active: 0 }, events).state is Some
            == installed(events),
    decreases events.len(),
{
    if events.len() > 0 {
        slot_lends_state_while_installed(events.drop_last());
    }
}

/// An owned reference to a loaded module. Its base address stays known
/// after release; release happens at most once.
pub struct ModuleReference {
    base: usize,
    owned: bool,
}

impl ModuleReference {
    /// Takes ownership of one reference to the module at `base`.
    pub fn from_owned(base: usize) -> (r: ModuleReference)
        ensures
            r.spec_base() == base,
            r.spec_owned(),
    {
        ModuleReference { base, owned: true }
    }

    /// Whether this value still owns its reference.
    pub closed spec fn spec_owned(&self) -> bool {
        self.owned
    }

    /// The module's base address.
    pub closed spec fn spec_base(&self) -> usize {
        self.base
    }

    /// The module's original base address, also after release.
    pub fn base(&self) -> (r: usize)
        ensures
            r == self.spec_base(),
    {
        self.base
    }

    /// Whether the reference must still be released.
    pub fn owned(&self) -> (r: bool)
        ensures
            r == self.spec_owned(),
    {
        self.owned
    }

    /// Records a successful release; a failed one leaves ownership so the
    /// caller can retry.
    pub fn mark_released(&mut self)
        ensures
            !final(self).spec_owned(),
            final(self).spec_base() == old(self).spec_base(),
    {
        self.owned = false;
    }
}

} // verus!

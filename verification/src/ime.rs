//! Input-method composition ranges. The input method indexes UTF-16 code
//! units; the UI indexes characters.

use vstd::prelude::*;
use std::ops::Range;
use crate::export::{utf16_len, utf16_units};
use crate::text::chars_of;
use crate::input::{decode_character, decodes, control, is_control};

verus! {

/// The attribute of a character being converted and targeted.
pub const ATTR_TARGET_CONVERTED: u8 = 1;
/// The attribute of a targeted character not yet converted.
pub const ATTR_TARGET_NOTCONVERTED: u8 = 3;

/// Character `i` of `text` is targeted: the attribute at its first UTF-16
/// unit marks it as a conversion target.
pub open spec fn targeted(text: Seq<char>, attributes: Seq<u8>, i: int) -> bool {
    let unit = utf16_len(text.take(i));
    unit < attributes.len() && (attributes[unit as int] == ATTR_TARGET_CONVERTED || attributes[unit as int]
        == ATTR_TARGET_NOTCONVERTED)
}

/// `m` characters of `text` end at or before UTF-16 offset `cursor`, and one
/// more would not.
pub open spec fn chars_before_cursor(text: Seq<char>, cursor: int, m: int) -> bool {
    &&& 0 <= m <= text.len()
    &&& utf16_len(text.take(m)) <= cursor
    &&& m < text.len() ==> utf16_len(text.take(m + 1)) > cursor
}

proof fn lemma_take_push(text: Seq<char>, i: int)
    requires
        0 <= i < text.len(),
    ensures
        utf16_len(text.take(i + 1)) == utf16_len(text.take(i)) + utf16_units(text[i]),
{
    assert(text.take(i + 1).drop_last() =~= text.take(i));
}

/// The characters that a composition highlights: the first run of targeted
/// characters, or, with none, an empty range at the cursor given in UTF-16
/// units (never inside a surrogate pair). `None` for an empty text or a
/// negative cursor.
pub fn active_range(text: &str, attributes: &[u8], cursor: i32) -> (r: Option<Range<usize>>)
    ensures
        text@.len() == 0 ==> r is None,
        text@.len() > 0 && (exists|i: int| 0 <= i < text@.len() && targeted(text@, attributes@, i)) ==> (r matches Some(range) && {
            &&& range.start < range.end <= text@.len()
            &&& forall|k: int| range.start <= k < range.end ==> #[trigger] targeted(text@, attributes@, k)
            &&& forall|k: int| 0 <= k < range.start ==> !#[trigger] targeted(text@, attributes@, k)
            &&& range.end < text@.len() ==> !targeted(text@, attributes@, range.end as int)
        }),
        text@.len() > 0 && !(exists|i: int| 0 <= i < text@.len() && targeted(text@, attributes@, i)) && cursor < 0 ==> r is None,
        text@.len() > 0 && !(exists|i: int| 0 <= i < text@.len() && targeted(text@, attributes@, i)) && cursor >= 0 ==> (r matches Some(
            range,
        ) && range.start == range.end && chars_before_cursor(text@, cursor as int, range.start as int)),
{
    let chars = chars_of(text);
    if chars.len() == 0 {
        return None;
    }
    let n = chars.len();
    let mut units: u128 = 0;
    let mut start: usize = 0;
    let mut found = false;
    let mut end: usize = 0;
    let mut i: usize = 0;
    while i < n
        invariant_except_break
            n == chars@.len(),
            chars@ == text@,
            i <= n,
            units == utf16_len(text@.take(i as int)),
            units <= 2 * i,
            !found ==> forall|k: int| 0 <= k < i ==> !#[trigger] targeted(text@, attributes@, k),
            found ==> start < i && forall|k: int| 0 <= k < start ==> !#[trigger] targeted(text@, attributes@, k),
            found ==> forall|k: int| start <= k < i ==> #[trigger] targeted(text@, attributes@, k),
            found ==> end == i,
        ensures
            n == chars@.len(),
            chars@ == text@,
            found ==> start < end <= n && (forall|k: int| 0 <= k < start ==> !#[trigger] targeted(text@, attributes@, k))
                && (forall|k: int| start <= k < end ==> #[trigger] targeted(text@, attributes@, k))
                && (end < n ==> !targeted(text@, attributes@, end as int)),
            !found ==> forall|k: int| 0 <= k < n ==> !#[trigger] targeted(text@, attributes@, k),
        decreases n - i,
    {
        let is_targeted = units < attributes.len() as u128 && {
            let attribute = attributes[units as usize];
            attribute == ATTR_TARGET_CONVERTED || attribute == ATTR_TARGET_NOTCONVERTED
        };
        assert(is_targeted == targeted(text@, attributes@, i as int));
        if is_targeted {
            if !found {
                found = true;
                start = i;
            }
        } else if found {
            end = i;
            break;
        }
        proof {
            lemma_take_push(text@, i as int);
        }
        units = units + if (chars[i] as u32) > 0xffff { 2 } else { 1 };
        i = i + 1;
        if found {
            end = i;
        }
    }
    if found {
        assert(targeted(text@, attributes@, start as int));
        return Some(start..end);
    }
    if cursor < 0 {
        return None;
    }
    let limit = cursor as u128;
    let mut units: u128 = 0;
    let mut count: usize = 0;
    while count < n
        invariant_except_break
            n == chars@.len(),
            chars@ == text@,
            count <= n,
            units == utf16_len(text@.take(count as int)),
            units <= 2 * count,
            units <= limit,
        ensures
            chars_before_cursor(text@, limit as int, count as int),
        decreases n - count,
    {
        proof {
            lemma_take_push(text@, count as int);
        }
        let next = units + if (chars[count] as u32) > 0xffff { 2 } else { 1 };
        if next > limit {
            break;
        }
        units = next;
        count = count + 1;
    }
    Some(count..count)
}

/// Who receives input-method text: the overlay's focused widget, or the
/// host application's editor with this identity.
#[derive(Clone, Copy, Debug, PartialEq, Eq, Structural)]
pub enum ImeOwner {
    Overlay(Option<u64>),
    Host(usize),
}

/// A cursor rectangle, each coordinate by the bits of its float.
#[derive(Clone, Copy, Debug, PartialEq, Eq, Structural)]
pub struct CursorBits {
    pub min_x: u32,
    pub min_y: u32,
    pub max_x: u32,
    pub max_y: u32,
}

/// An editor that receives input-method text, and where its cursor is.
#[derive(Clone, Copy, Debug, PartialEq, Eq, Structural)]
pub struct ImeTarget {
    pub owner: ImeOwner,
    pub cursor: CursorBits,
}

/// What the input-method broker of one window remembers between calls.
#[derive(Clone, Copy, Debug, PartialEq, Eq, Structural)]
pub struct ImeState {
    /// The overlay editor that asked for input, if any.
    pub requested: Option<ImeTarget>,
    /// Whether the overlay blocks the host's input.
    pub block_host: bool,
    /// The editor the input context is set up for.
    pub applied: Option<ImeTarget>,
    /// Whether the broker holds an input context.
    pub has_context: bool,
    /// Whether the broker handles the window's input-method messages.
    pub owns_messages: bool,
    pub composing: bool,
    pub pending_high_surrogate: Option<u16>,
    /// Whether the current composition has ended.
    pub ended: bool,
    /// Whether the overlay asked to interrupt the composition.
    pub interrupt: bool,
    /// Whether the window is closing.
    pub closing: bool,
}

impl ImeState {
    /// The broker of a window before its first frame.
    pub fn new() -> (r: ImeState)
        ensures
            r.requested is None && r.applied is None && !r.block_host && !r.has_context && !r.owns_messages,
            !r.composing && r.pending_high_surrogate is None && !r.ended && !r.interrupt && !r.closing,
    {
        ImeState {
            requested: None,
            block_host: false,
            applied: None,
            has_context: false,
            owns_messages: false,
            composing: false,
            pending_high_surrogate: None,
            ended: false,
            interrupt: false,
            closing: false,
        }
    }
}

/// The owner of an optional target.
pub open spec fn owner_of(t: Option<ImeTarget>) -> Option<ImeOwner> {
    match t {
        Some(t) => Some(t.owner),
        None => None,
    }
}

/// Which editor gets input: none when synchronisation is forced off, the
/// window closes or lacks focus; the overlay's request while it blocks the
/// host; otherwise the host's editor.
pub open spec fn chosen_target(
    s: ImeState,
    focused: bool,
    host_target: Option<ImeTarget>,
    force_none: bool,
) -> Option<ImeTarget> {
    if force_none || s.closing || !focused {
        None
    } else if s.block_host {
        s.requested
    } else {
        host_target
    }
}

/// Whether the host's editor must be asked for its target.
pub fn host_target_wanted(s: &ImeState, focused: bool, force_none: bool) -> (r: bool)
    ensures
        r == (!(force_none || s.closing || !focused) && !s.block_host),
{
    !(force_none || s.closing || !focused) && !s.block_host
}

/// The first part of a synchronisation.
#[derive(Clone, Copy, Debug, PartialEq, Eq, Structural)]
pub struct ImeBegin {
    /// The editor that gets input now.
    pub target: Option<ImeTarget>,
    /// Whether the input context is given back to the window.
    pub release_context: bool,
    /// Whether the owner changed or an interrupt arrived.
    pub reset: bool,
    /// The previous owner, whose composition is cancelled and whose preedit
    /// is cleared.
    pub cancel: Option<ImeOwner>,
    /// Whether an input context must be created.
    pub create_context: bool,
}

/// Starts a synchronisation: chooses the target, cancels the previous
/// owner's composition when the owner changes or an interrupt arrived, and
/// claims the window's messages unless the context is given back. `has_host`
/// is whether a host editor adapter exists.
pub fn ime_begin(
    state: &mut ImeState,
    focused: bool,
    host_target: Option<ImeTarget>,
    has_host: bool,
    force_none: bool,
) -> (r: ImeBegin)
    ensures
        r.target == chosen_target(*old(state), focused, host_target, force_none),
        r.release_context == (old(state).closing || (!has_host && !old(state).block_host)),
        r.reset == (owner_of(r.target) != owner_of(old(state).applied) || old(state).interrupt),
        r.cancel == (if r.reset { owner_of(old(state).applied) } else { None }),
        r.create_context == (!r.release_context && !old(state).has_context),
        final(state).requested == old(state).requested,
        final(state).block_host == old(state).block_host,
        final(state).closing == old(state).closing,
        final(state).has_context == old(state).has_context,
        final(state).ended == old(state).ended,
        !final(state).interrupt,
        final(state).applied == (if r.reset { None } else { old(state).applied }),
        final(state).composing == (if r.reset && old(state).applied is Some { false } else { old(state).composing }),
        final(state).pending_high_surrogate == (if r.reset { None } else { old(state).pending_high_surrogate }),
        final(state).owns_messages == (old(state).owns_messages || !r.release_context),
{
    let target = if force_none || state.closing || !focused {
        None
    } else if state.block_host {
        state.requested
    } else {
        host_target
    };
    let interrupt = state.interrupt;
    state.interrupt = false;
    let release_context = state.closing || (!has_host && !state.block_host);
    let target_owner = match target {
        Some(t) => Some(t.owner),
        None => None,
    };
    let previous_owner = match state.applied {
        Some(t) => Some(t.owner),
        None => None,
    };
    let reset = target_owner != previous_owner || interrupt;
    let mut cancel = None;
    if reset {
        state.pending_high_surrogate = None;
        if previous_owner.is_some() {
            state.applied = None;
            state.composing = false;
            cancel = previous_owner;
        }
    }
    if !release_context {
        state.owns_messages = true;
    }
    ImeBegin { target, release_context, reset, cancel, create_context: !release_context && !state.has_context }
}

/// What happens to the input context when no editor gets input.
#[derive(Clone, Copy, Debug, PartialEq, Eq, Structural)]
pub enum ImeIdle {
    /// Give the window's own context back and destroy the broker's.
    RestoreAndDestroy,
    /// Keep the broker's context but suspend it.
    Suspend,
    /// Nothing to do: the broker holds no context.
    Nothing,
}

/// Ends a synchronisation that chose no target. `has_context` is whether
/// the broker now holds a context (it may just have been created).
pub fn ime_idle(state: &mut ImeState, release_context: bool, has_context: bool) -> (r: ImeIdle)
    ensures
        r == (if release_context {
            if has_context { ImeIdle::RestoreAndDestroy } else { ImeIdle::Nothing }
        } else if has_context {
            ImeIdle::Suspend
        } else {
            ImeIdle::Nothing
        }),
        *final(state) == (ImeState {
            has_context: has_context && !release_context,
            applied: None,
            owns_messages: !release_context,
            composing: false,
            pending_high_surrogate: None,
            ..*old(state)
        }),
{
    state.has_context = has_context && !release_context;
    state.applied = None;
    state.owns_messages = !release_context;
    state.composing = false;
    state.pending_high_surrogate = None;
    if !has_context {
        ImeIdle::Nothing
    } else if release_context {
        ImeIdle::RestoreAndDestroy
    } else {
        ImeIdle::Suspend
    }
}

/// What to do with the input context after choosing a target.
#[derive(Clone, Copy, Debug, PartialEq, Eq, Structural)]
pub struct ImeApply {
    /// Suspend the context: associating it with the window failed.
    pub suspend: bool,
    /// Move the candidate window to the target's cursor.
    pub set_cursor: bool,
    /// Tell the window that input starts, with the composition window hidden.
    pub set_context: bool,
}

/// Ends a synchronisation that chose `target`, with the broker's context
/// present. `previous` is the target applied before this synchronisation,
/// `entering` whether the context was not yet associated with the window,
/// and `associated` whether associating it succeeded (or was not needed).
pub fn ime_apply(
    state: &mut ImeState,
    target: ImeTarget,
    previous: Option<ImeTarget>,
    reset: bool,
    entering: bool,
    associated: bool,
) -> (r: ImeApply)
    ensures
        entering && !associated ==> r == (ImeApply { suspend: true, set_cursor: false, set_context: false })
            && *final(state) == (ImeState { has_context: true, applied: None, owns_messages: true, ..*old(state) }),
        !(entering && !associated) ==> r == (ImeApply {
            suspend: false,
            set_cursor: entering || previous != Some(target),
            set_context: entering,
        }) && *final(state) == (ImeState {
            has_context: true,
            applied: Some(target),
            owns_messages: true,
            ended: if entering || reset { false } else { old(state).ended },
            ..*old(state)
        }),
{
    state.has_context = true;
    if entering {
        state.owns_messages = true;
        if !associated {
            state.applied = None;
            return ImeApply { suspend: true, set_cursor: false, set_context: false };
        }
    }
    if entering || reset {
        state.ended = false;
    }
    state.applied = Some(target);
    state.owns_messages = true;
    ImeApply { suspend: false, set_cursor: entering || previous != Some(target), set_context: entering }
}

/// An input-method window message, by kind.
#[derive(Clone, Copy, Debug, PartialEq, Eq, Structural)]
pub enum ImeMessage {
    SetContext,
    StartComposition,
    Composition,
    EndComposition,
    /// Characters and requests that the default procedure would duplicate.
    Swallowed,
    /// Notifications, control, selection and key messages the system IME handles.
    Forwarded,
    /// Any other message.
    Other,
}

/// The composition flag for the result string.
pub const GCS_RESULTSTR: u32 = 0x800;
/// The composition flags for the composition string, its attributes, its
/// clauses and the cursor.
pub const GCS_COMPOSITION_PARTS: u32 = 0x8 | 0x10 | 0x20 | 0x80;
/// The `WM_IME_SETCONTEXT` bit that shows the composition window.
pub const ISC_SHOWUICOMPOSITIONWINDOW: u32 = 0x8000_0000;
/// The `WM_IME_SETCONTEXT` bits that show every input-method window.
pub const ISC_SHOWUIALL: u32 = 0xC000_000F;

/// Text for the owning editor.
#[derive(Clone, Debug, PartialEq, Eq)]
pub enum ImeText {
    /// Completed text.
    Commit(String),
    /// The text being composed and its active range, or an empty text to
    /// clear it.
    Preedit(String, Option<Range<usize>>),
}

/// The answer to an input-method message.
#[derive(Clone, Debug, PartialEq, Eq)]
pub struct ImeReply {
    /// Text for the owner, in order.
    pub events: Vec<ImeText>,
    /// The owner that receives `events`.
    pub owner: Option<ImeOwner>,
    /// Whether the system input method handles the message, bypassing the host.
    pub default_proc: bool,
    /// The message's parameter, as it is passed on.
    pub lparam: isize,
}

/// Input-method text as the contracts see it: strings by their characters.
pub enum ImeTextView {
    Commit(Seq<char>),
    Preedit(Seq<char>, Option<Range<usize>>),
}

impl View for ImeText {
    type V = ImeTextView;

    open spec fn view(&self) -> ImeTextView {
        match self {
            ImeText::Commit(text) => ImeTextView::Commit(text@),
            ImeText::Preedit(text, range) => ImeTextView::Preedit(text@, *range),
        }
    }
}

/// The views of a list of texts.
pub open spec fn text_views(s: Seq<ImeText>) -> Seq<ImeTextView> {
    s.map_values(|t: ImeText| t@)
}

/// The cleared preedit.
pub open spec fn cleared_preedit() -> ImeTextView {
    ImeTextView::Preedit(Seq::empty(), None)
}

/// A string's characters, if there is one.
pub open spec fn chars_opt(s: Option<String>) -> Option<Seq<char>> {
    match s {
        Some(s) => Some(s@),
        None => None,
    }
}

/// A preedit's characters and range, if there is one.
pub open spec fn preedit_opt(p: Option<(String, Option<Range<usize>>)>) -> Option<(Seq<char>, Option<Range<usize>>)> {
    match p {
        Some(p) => Some((p.0@, p.1)),
        None => None,
    }
}

/// Handles an input-method message. `flags` are a composition message's
/// flags; `result` and `preedit` are what the input context holds when the
/// flags announce them (a result string, and the composition string with its
/// range). `None` means the broker does not handle the message.
pub fn ime_message(
    state: &mut ImeState,
    message: ImeMessage,
    lparam: isize,
    result: Option<String>,
    preedit: Option<(String, Option<Range<usize>>)>,
) -> (r: Option<ImeReply>)
    ensures
        !old(state).owns_messages ==> r is None && *final(state) == *old(state),
        old(state).owns_messages ==> ({
            let o = owner_of(old(state).applied);
            let cleared = if message is StartComposition || message is Composition || message is EndComposition {
                ImeState { pending_high_surrogate: None, ..*old(state) }
            } else {
                *old(state)
            };
            let flags = lparam as u32;
            let res = chars_opt(result);
            let pre = preedit_opt(preedit);
            &&& message is Other ==> (r is None && *final(state) == cleared)
            &&& message !is Other ==> (r matches Some(reply) && reply.owner == o && reply.lparam == (if message
                is SetContext {
                if o is Some { lparam & !(ISC_SHOWUICOMPOSITIONWINDOW as isize) } else { lparam & !(ISC_SHOWUIALL as isize) }
            } else {
                lparam
            }))
            &&& message is SetContext ==> (r matches Some(reply) && *final(state) == cleared && reply.events@.len() == 0
                && reply.default_proc)
            &&& message is StartComposition ==> (r matches Some(reply) && reply.events@.len() == 0 && reply.default_proc
                == (o is Some) && *final(state) == (if o is Some {
                ImeState { composing: true, ended: false, ..cleared }
            } else {
                cleared
            }))
            &&& (message is Swallowed || (message is Composition && (old(state).ended || o is None
                || !old(state).has_context))) ==> (r matches Some(reply) && *final(state) == cleared
                && reply.events@.len() == 0 && !reply.default_proc)
            &&& message is Forwarded ==> (r matches Some(reply) && *final(state) == cleared && reply.events@.len() == 0
                && reply.default_proc == (o is Some))
            &&& (message is Composition && !old(state).ended && o is Some && old(state).has_context) ==> (r matches Some(
                reply,
            ) && !reply.default_proc && text_views(reply.events@) == composition_events(flags, res, pre)
                && *final(state) == (ImeState {
                composing: composing_after(old(state).composing, flags, res, pre),
                ..cleared
            }))
            &&& message is EndComposition ==> (r matches Some(reply) && reply.default_proc == (o is Some)
                && text_views(reply.events@) == (if o is Some {
                end_events(old(state).composing, res)
            } else {
                Seq::empty()
            }) && *final(state) == (ImeState { composing: false, ended: true, ..cleared }))
        }),
{
    if !state.owns_messages {
        return None;
    }
    let owner = match state.applied {
        Some(t) => Some(t.owner),
        None => None,
    };
    match message {
        ImeMessage::StartComposition | ImeMessage::Composition | ImeMessage::EndComposition => {
            state.pending_high_surrogate = None;
        },
        _ => {},
    }
    let mut events: Vec<ImeText> = Vec::new();
    let mut default_proc = false;
    let mut out_lparam = lparam;
    match message {
        ImeMessage::SetContext => {
            out_lparam = if owner.is_some() {
                lparam & !(ISC_SHOWUICOMPOSITIONWINDOW as isize)
            } else {
                lparam & !(ISC_SHOWUIALL as isize)
            };
            default_proc = true;
        },
        ImeMessage::StartComposition => {
            if owner.is_some() {
                state.composing = true;
                state.ended = false;
                default_proc = true;
            }
        },
        ImeMessage::Composition => {
            if !state.ended && owner.is_some() && state.has_context {
                let flags = lparam as u32;
                state.composing = composing_step(state.composing, flags, &result, &preedit);
                events = composition_list(flags, result, preedit);
            }
        },
        ImeMessage::EndComposition => {
            if owner.is_some() {
                events = end_list(state.composing, result);
                default_proc = true;
            }
            state.composing = false;
            state.ended = true;
        },
        ImeMessage::Swallowed => {},
        ImeMessage::Forwarded => {
            default_proc = owner.is_some();
        },
        ImeMessage::Other => {
            return None;
        },
    }
    Some(ImeReply { events, owner, default_proc, lparam: out_lparam })
}

/// The events of a composition message: a cleared preedit when the flags are
/// empty, then the result string when announced, then the preedit when its
/// parts are announced.
pub open spec fn composition_events(
    flags: u32,
    result: Option<Seq<char>>,
    preedit: Option<(Seq<char>, Option<Range<usize>>)>,
) -> Seq<ImeTextView> {
    let first: Seq<ImeTextView> = if flags == 0 { seq![cleared_preedit()] } else { Seq::empty() };
    let second: Seq<ImeTextView> = if flags & GCS_RESULTSTR != 0 && result is Some {
        seq![ImeTextView::Commit(result.unwrap())]
    } else {
        Seq::empty()
    };
    let third: Seq<ImeTextView> = if flags & GCS_COMPOSITION_PARTS != 0 && preedit is Some {
        seq![ImeTextView::Preedit(preedit.unwrap().0, preedit.unwrap().1)]
    } else {
        Seq::empty()
    };
    first + second + third
}

/// Whether a composition is under way after a composition message: an empty
/// message or a result ends it; an announced preedit continues it exactly
/// when its text is not empty.
pub open spec fn composing_after(
    composing: bool,
    flags: u32,
    result: Option<Seq<char>>,
    preedit: Option<(Seq<char>, Option<Range<usize>>)>,
) -> bool {
    let a = if flags == 0 { false } else { composing };
    let b = if flags & GCS_RESULTSTR != 0 && result is Some { false } else { a };
    if flags & GCS_COMPOSITION_PARTS != 0 && preedit is Some {
        preedit.unwrap().0.len() > 0
    } else {
        b
    }
}

/// The events of the end of a composition: a result still waiting (as
/// Hangul input leaves it), then a cleared preedit.
pub open spec fn end_events(composing: bool, result: Option<Seq<char>>) -> Seq<ImeTextView> {
    (if composing && result is Some && result.unwrap().len() > 0 {
        seq![ImeTextView::Commit(result.unwrap())]
    } else {
        Seq::<ImeTextView>::empty()
    }) + seq![cleared_preedit()]
}

fn composing_step(
    composing: bool,
    flags: u32,
    result: &Option<String>,
    preedit: &Option<(String, Option<Range<usize>>)>,
) -> (r: bool)
    ensures
        r == composing_after(composing, flags, chars_opt(*result), preedit_opt(*preedit)),
{
    let mut c = composing;
    if flags == 0 {
        c = false;
    }
    if flags & GCS_RESULTSTR != 0 && result.is_some() {
        c = false;
    }
    if flags & GCS_COMPOSITION_PARTS != 0 {
        match preedit {
            Some(p) => {
                c = !p.0.as_str().is_empty();
            },
            None => {},
        }
    }
    c
}

fn composition_list(
    flags: u32,
    result: Option<String>,
    preedit: Option<(String, Option<Range<usize>>)>,
) -> (r: Vec<ImeText>)
    ensures
        text_views(r@) == composition_events(flags, chars_opt(result), preedit_opt(preedit)),
{
    let ghost res = result;
    let ghost pre = preedit;
    let mut out: Vec<ImeText> = Vec::new();
    if flags == 0 {
        out.push(ImeText::Preedit(String::new(), None));
    }
    let ghost first = out@;
    if flags & GCS_RESULTSTR != 0 {
        match result {
            Some(text) => out.push(ImeText::Commit(text)),
            None => {},
        }
    }
    let ghost second = out@;
    if flags & GCS_COMPOSITION_PARTS != 0 {
        match preedit {
            Some(p) => out.push(ImeText::Preedit(p.0, p.1)),
            None => {},
        }
    }
    proof {
        assert(text_views(out@) =~= composition_events(flags, chars_opt(res), preedit_opt(pre)));
    }
    out
}

fn end_list(composing: bool, result: Option<String>) -> (r: Vec<ImeText>)
    ensures
        text_views(r@) == end_events(composing, chars_opt(result)),
{
    let ghost res = result;
    let mut out: Vec<ImeText> = Vec::new();
    if composing {
        match result {
            Some(text) => {
                if !text.as_str().is_empty() {
                    out.push(ImeText::Commit(text));
                }
            },
            None => {},
        }
    }
    out.push(ImeText::Preedit(String::new(), None));
    proof {
        assert(text_views(out@) =~= end_events(composing, chars_opt(res)));
    }
    out
}

/// A character message while a host editor owns input: what to do with it.
#[derive(Clone, Copy, Debug, PartialEq, Eq, Structural)]
pub enum ImeCharacter {
    /// Not the broker's: the host's window procedure handles it.
    PassOn,
    /// Consumed; nothing to deliver (a composition runs, or half a pair).
    Consumed,
    /// Consumed, and this character goes to the host editor with this identity.
    Commit(usize, char),
}

/// Routes a character message: only while a host editor owns input; during a
/// composition it is dropped; control characters keep their native path;
/// other characters, joined from surrogate pairs, go to the host editor.
pub fn ime_character(state: &mut ImeState, code_unit: usize) -> (r: ImeCharacter)
    ensures
        !(old(state).applied matches Some(t) && t.owner is Host) ==> r == ImeCharacter::PassOn && *final(state) == *old(state),
        (old(state).applied matches Some(t) && t.owner is Host) && old(state).composing ==> r == ImeCharacter::Consumed
            && *final(state) == (ImeState { pending_high_surrogate: None, ..*old(state) }),
        (old(state).applied matches Some(t) && t.owner is Host) && !old(state).composing ==> exists|c: Option<char>|
            {
                &&& decodes(old(state).pending_high_surrogate, code_unit, c, final(state).pending_high_surrogate)
                &&& *final(state) == (ImeState { pending_high_surrogate: final(state).pending_high_surrogate, ..*old(state) })
                &&& r == match c {
                    Some(ch) => if control(ch) {
                        ImeCharacter::PassOn
                    } else {
                        ImeCharacter::Commit(old(state).applied.unwrap().owner->Host_0, ch)
                    },
                    None => ImeCharacter::Consumed,
                }
            },
{
    let id = match state.applied {
        Some(t) => match t.owner {
            ImeOwner::Host(id) => id,
            ImeOwner::Overlay(_) => {
                return ImeCharacter::PassOn;
            },
        },
        None => {
            return ImeCharacter::PassOn;
        },
    };
    if state.composing {
        state.pending_high_surrogate = None;
        return ImeCharacter::Consumed;
    }
    let mut pending = state.pending_high_surrogate;
    let character = decode_character(&mut pending, code_unit);
    state.pending_high_surrogate = pending;
    match character {
        Some(c) => {
            if is_control(c) {
                ImeCharacter::PassOn
            } else {
                ImeCharacter::Commit(id, c)
            }
        },
        None => ImeCharacter::Consumed,
    }
}

/// How a composition message moves the composition: a message that
/// announces a result string it carries, and no preedit, ends the
/// composition, so the end that follows commits nothing again; an empty
/// message ends it too; an announced preedit continues it exactly when its
/// text is not empty; and a message that announces nothing it carries leaves
/// it as it was.
pub proof fn composition_follows_its_message(
    composing: bool,
    flags: u32,
    result: Option<Seq<char>>,
    preedit: Option<(Seq<char>, Option<Range<usize>>)>,
)
    ensures
        flags & GCS_RESULTSTR != 0 && result is Some && !(flags & GCS_COMPOSITION_PARTS != 0 && preedit is Some)
            ==> !composing_after(composing, flags, result, preedit),
        flags == 0 ==> !composing_after(composing, flags, result, preedit),
        flags & GCS_COMPOSITION_PARTS != 0 && preedit is Some ==> composing_after(composing, flags, result, preedit)
            == (preedit.unwrap().0.len() > 0),
        flags != 0 && !(flags & GCS_RESULTSTR != 0 && result is Some) && !(flags & GCS_COMPOSITION_PARTS != 0
            && preedit is Some) ==> composing_after(composing, flags, result, preedit) == composing,
        !composing ==> end_events(composing, result) == seq![ImeTextView::Preedit(Seq::empty(), None)],
        composing && result is Some && result.unwrap().len() > 0 ==> end_events(composing, result) == seq![
            ImeTextView::Commit(result.unwrap()),
            ImeTextView::Preedit(Seq::empty(), None),
        ],
{
    if flags == 0 {
        assert(flags & GCS_COMPOSITION_PARTS == 0) by (bit_vector)
            requires
                flags == 0,
        ;
    }
    assert(Seq::<ImeTextView>::empty() + seq![cleared_preedit()] =~= seq![ImeTextView::Preedit(Seq::empty(), None)]);
    if composing && result is Some && result.unwrap().len() > 0 {
        assert(seq![ImeTextView::Commit(result.unwrap())] + seq![cleared_preedit()] =~= seq![
            ImeTextView::Commit(result.unwrap()),
            ImeTextView::Preedit(Seq::empty(), None),
        ]);
    }
}

} // verus!

//! Decoding of native window-message words and input routing decisions.

use vstd::prelude::*;

verus! {

pub const WM_MOUSEMOVE: u32 = 0x0200;
pub const WM_LBUTTONDOWN: u32 = 0x0201;
pub const WM_LBUTTONUP: u32 = 0x0202;
pub const WM_LBUTTONDBLCLK: u32 = 0x0203;
pub const WM_RBUTTONDOWN: u32 = 0x0204;
pub const WM_RBUTTONUP: u32 = 0x0205;
pub const WM_RBUTTONDBLCLK: u32 = 0x0206;
pub const WM_MBUTTONDOWN: u32 = 0x0207;
pub const WM_MBUTTONUP: u32 = 0x0208;
pub const WM_MBUTTONDBLCLK: u32 = 0x0209;
pub const WM_MOUSEWHEEL: u32 = 0x020A;
pub const WM_XBUTTONDOWN: u32 = 0x020B;
pub const WM_XBUTTONUP: u32 = 0x020C;
pub const WM_XBUTTONDBLCLK: u32 = 0x020D;
pub const WM_MOUSEHWHEEL: u32 = 0x020E;
pub const WM_MOUSELEAVE: u32 = 0x02A3;
pub const WM_KEYDOWN: u32 = 0x0100;
pub const WM_KEYUP: u32 = 0x0101;
pub const WM_CHAR: u32 = 0x0102;
pub const WM_SYSKEYDOWN: u32 = 0x0104;
pub const WM_SYSKEYUP: u32 = 0x0105;
pub const WM_SYSCHAR: u32 = 0x0106;
pub const VK_PAUSE: u16 = 0x13;
pub const VK_NUMLOCK: u16 = 0x90;
pub const XBUTTON1: u16 = 0x0001;

/// The 16-bit two's-complement reading of `bits`.
pub open spec fn as_signed16(bits: int) -> int {
    if bits >= 0x8000 {
        bits - 0x10000
    } else {
        bits
    }
}

/// Bits 0..16 of a message word.
pub open spec fn low_bits(value: usize) -> int {
    value as int % 0x10000
}

/// Bits 16..32 of a message word.
pub open spec fn high_bits(value: usize) -> int {
    (value as int / 0x10000) % 0x10000
}

/// The low word of a packed message value, read as a signed coordinate.
pub fn low_word_signed(value: usize) -> (r: i16)
    ensures
        r as int == as_signed16(low_bits(value)),
{
    let low: u16 = (value & 0xFFFF) as u16;
    assert(value & 0xFFFF == value % 0x10000) by (bit_vector);
    signed16(low)
}

/// The high word of a packed message value, read as a signed coordinate.
pub fn high_word_signed(value: usize) -> (r: i16)
    ensures
        r as int == as_signed16(high_bits(value)),
{
    signed16(high_word(value))
}

/// The high word of a packed message value.
pub fn high_word(value: usize) -> (r: u16)
    ensures
        r as int == high_bits(value),
{
    assert((value >> 16) & 0xFFFF == (value / 0x10000) % 0x10000) by (bit_vector);
    ((value >> 16) & 0xFFFF) as u16
}

fn signed16(bits: u16) -> (r: i16)
    ensures
        r as int == as_signed16(bits as int),
{
    if bits >= 0x8000 {
        (bits as i32 - 0x10000) as i16
    } else {
        bits as i16
    }
}

/// The keyboard scan code of a key message: bits 16..23 of `lparam`, plus
/// 0x80 when the extended-key flag (bit 24) is set.
pub open spec fn scan_bits(lparam: usize) -> int {
    (lparam as int / 0x10000) % 0x80 + (if (lparam as int / 0x1000000) % 2 == 1 {
        0x80int
    } else {
        0
    })
}

/// The DirectInput scan code for a key message. Pause and Num Lock report
/// swapped codes natively and are normalized.
pub fn scan_code(wparam: usize, lparam: usize) -> (r: usize)
    ensures
        (wparam % 0x10000) as u16 == VK_PAUSE ==> r == 0xc5,
        (wparam % 0x10000) as u16 == VK_NUMLOCK ==> r == 0x45,
        (wparam % 0x10000) as u16 != VK_PAUSE && (wparam % 0x10000) as u16 != VK_NUMLOCK ==> r
            == scan_bits(lparam),
{
    let code: u16 = (wparam & 0xFFFF) as u16;
    assert(wparam & 0xFFFF == wparam % 0x10000) by (bit_vector);
    if code == VK_PAUSE {
        0xc5
    } else if code == VK_NUMLOCK {
        0x45
    } else {
        let low = (lparam >> 16) & 0x7f;
        let high = (lparam >> 17) & 0x80;
        assert((lparam >> 16) & 0x7f == (lparam / 0x10000) % 0x80) by (bit_vector);
        assert((lparam >> 17) & 0x80 == (if (lparam / 0x1000000) % 2 == 1 {
            0x80usize
        } else {
            0
        })) by (bit_vector);
        assert(low | high == low + high) by (bit_vector)
            requires
                low < 0x80,
                high == 0 || high == 0x80,
        ;
        low | high
    }
}

/// Messages that carry pointer input.
pub open spec fn pointer_message(message: u32) -> bool {
    (WM_MOUSEMOVE <= message <= WM_MOUSEHWHEEL) || message == WM_MOUSELEAVE
}

/// Messages that carry keyboard input.
pub open spec fn keyboard_message(message: u32) -> bool {
    message == WM_KEYDOWN || message == WM_KEYUP || message == WM_SYSKEYDOWN || message
        == WM_SYSKEYUP || message == WM_CHAR || message == WM_SYSCHAR
}

/// Whether a window message carries pointer input.
pub fn is_pointer_message(message: u32) -> (r: bool)
    ensures
        r == pointer_message(message),
{
    message == WM_MOUSEMOVE || message == WM_MOUSELEAVE || message == WM_LBUTTONDOWN || message
        == WM_LBUTTONUP || message == WM_LBUTTONDBLCLK || message == WM_RBUTTONDOWN || message
        == WM_RBUTTONUP || message == WM_RBUTTONDBLCLK || message == WM_MBUTTONDOWN || message
        == WM_MBUTTONUP || message == WM_MBUTTONDBLCLK || message == WM_XBUTTONDOWN || message
        == WM_XBUTTONUP || message == WM_XBUTTONDBLCLK || message == WM_MOUSEWHEEL || message
        == WM_MOUSEHWHEEL
}

/// Whether a window message carries keyboard input.
pub fn is_keyboard_message(message: u32) -> (r: bool)
    ensures
        r == keyboard_message(message),
{
    message == WM_KEYDOWN || message == WM_KEYUP || message == WM_SYSKEYDOWN || message
        == WM_SYSKEYUP || message == WM_CHAR || message == WM_SYSCHAR
}

/// The two extra mouse buttons.
#[derive(Clone, Copy, Debug, PartialEq, Eq, Structural)]
pub enum ExtraButton {
    Extra1,
    Extra2,
}

/// Which extra button an X-button message names, from the high word of `wparam`.
pub fn x_button(wparam: usize) -> (r: ExtraButton)
    ensures
        r == (if high_bits(wparam) == XBUTTON1 as int {
            ExtraButton::Extra1
        } else {
            ExtraButton::Extra2
        }),
{
    if high_word(wparam) == XBUTTON1 {
        ExtraButton::Extra1
    } else {
        ExtraButton::Extra2
    }
}

/// Whether one input channel is withheld from the game.
#[derive(Clone, Copy, Debug, PartialEq, Eq, Structural)]
pub enum InputCapture {
    /// Follow the UI's current hover, drag or keyboard-focus intent.
    Auto,
    /// Withhold input even when the UI has no hovered or focused control.
    Block,
    /// Forward input even when the UI is handling it.
    PassThrough,
}

impl InputCapture {
    /// Resolves the policy against the current UI intent.
    pub fn captures(self, ui_wants_input: bool) -> (r: bool)
        ensures
            r == match self {
                InputCapture::Auto => ui_wants_input,
                InputCapture::Block => true,
                InputCapture::PassThrough => false,
            },
    {
        match self {
            InputCapture::Auto => ui_wants_input,
            InputCapture::Block => true,
            InputCapture::PassThrough => false,
        }
    }

    /// The default policy follows the UI.
    pub fn default_policy() -> (r: InputCapture)
        ensures
            r == InputCapture::Auto,
    {
        InputCapture::Auto
    }
}

/// Caller-owned policy for the mouse and keyboard channels.
#[derive(Clone, Copy, Debug, PartialEq, Eq, Structural)]
pub struct InputPolicy {
    pub pointer: InputCapture,
    pub keyboard: InputCapture,
}

impl InputPolicy {
    /// Automatic capture for both channels.
    pub fn automatic() -> (r: InputPolicy)
        ensures
            r.pointer == InputCapture::Auto,
            r.keyboard == InputCapture::Auto,
    {
        InputPolicy { pointer: InputCapture::Auto, keyboard: InputCapture::Auto }
    }
}

impl Default for InputCapture {
    fn default() -> (r: InputCapture)
        ensures
            r == InputCapture::Auto,
    {
        InputCapture::Auto
    }
}

impl Default for InputPolicy {
    fn default() -> (r: InputPolicy)
        ensures
            r.pointer == InputCapture::Auto,
            r.keyboard == InputCapture::Auto,
    {
        InputPolicy::automatic()
    }
}

/// The mouse buttons whose presses are tracked: left, right, middle, X1, X2.
pub const POINTER_BUTTONS: usize = 5;
/// The keyboard scan codes whose presses are tracked (extended keys set bit 7).
pub const SCAN_CODES: usize = 256;

/// The policy resolved against what the UI wants.
pub open spec fn resolves(capture: InputCapture, ui_wants_input: bool) -> bool {
    match capture {
        InputCapture::Auto => ui_wants_input,
        InputCapture::Block => true,
        InputCapture::PassThrough => false,
    }
}

/// Routing one press or release: which owners remain, and whether the
/// overlay receives it. A new press goes where `capture` says and is
/// remembered; a repeated press and the release go to the remembered
/// recipient, and the release forgets it. A release without a remembered
/// press, such as one pressed before the overlay was installed, goes to the
/// game. Untracked indices follow `capture`.
pub open spec fn route(owners: Seq<Option<bool>>, index: int, pressed: bool, capture: bool) -> (Seq<Option<bool>>, bool) {
    if !(0 <= index < owners.len()) {
        (owners, capture)
    } else if pressed {
        match owners[index] {
            Some(owner) => (owners, owner),
            None => (owners.update(index, Some(capture)), capture),
        }
    } else {
        (owners.update(index, None), match owners[index] {
            Some(owner) => owner,
            None => false,
        })
    }
}

/// Which input the overlay withholds from the game, and who received each
/// press that is still held.
pub struct CaptureState {
    policy: InputPolicy,
    pointer: bool,
    keyboard: bool,
    buttons: Vec<Option<bool>>,
    keys: Vec<Option<bool>>,
}

/// What a capture state holds.
pub struct CaptureView {
    pub policy: InputPolicy,
    /// Whether new pointer input goes to the overlay.
    pub pointer: bool,
    /// Whether new keyboard input goes to the overlay.
    pub keyboard: bool,
    /// The recipient of each held mouse button: `Some(true)` for the overlay.
    pub buttons: Seq<Option<bool>>,
    /// The recipient of each held key, by scan code.
    pub keys: Seq<Option<bool>>,
}

impl View for CaptureState {
    type V = CaptureView;

    closed spec fn view(&self) -> CaptureView {
        CaptureView { policy: self.policy, pointer: self.pointer, keyboard: self.keyboard, buttons: self.buttons@, keys: self.keys@ }
    }
}

/// Whether any held button went to the overlay, or, with none held, whether
/// new pointer input does.
pub open spec fn motion_captured(v: CaptureView) -> bool {
    if exists|i: int| 0 <= i < v.buttons.len() && v.buttons[i] is Some {
        exists|i: int| 0 <= i < v.buttons.len() && v.buttons[i] == Some(true)
    } else {
        v.pointer
    }
}

/// The remembered owner at `index`, if it is tracked and held.
pub open spec fn owner_at(owners: Seq<Option<bool>>, index: int) -> Option<bool> {
    if 0 <= index < owners.len() {
        owners[index]
    } else {
        None
    }
}

/// Nothing captured and nothing held.
pub open spec fn fresh_capture() -> CaptureView {
    CaptureView {
        policy: InputPolicy { pointer: InputCapture::PassThrough, keyboard: InputCapture::PassThrough },
        pointer: false,
        keyboard: false,
        buttons: Seq::new(POINTER_BUTTONS as nat, |i: int| None::<bool>),
        keys: Seq::new(SCAN_CODES as nat, |i: int| None::<bool>),
    }
}

impl CaptureState {
    /// Tracks the expected number of buttons and keys.
    pub closed spec fn wf(&self) -> bool {
        self.buttons@.len() == POINTER_BUTTONS && self.keys@.len() == SCAN_CODES
    }

    /// Nothing captured and nothing held: the state before the first frame.
    pub fn new() -> (r: CaptureState)
        ensures
            r.wf(),
            r@ == fresh_capture(),
    {
        let mut buttons: Vec<Option<bool>> = Vec::new();
        while buttons.len() < POINTER_BUTTONS
            invariant
                buttons@.len() <= POINTER_BUTTONS,
                forall|i: int| 0 <= i < buttons@.len() ==> buttons@[i] is None,
            decreases POINTER_BUTTONS - buttons@.len(),
        {
            buttons.push(None);
        }
        let mut keys: Vec<Option<bool>> = Vec::new();
        while keys.len() < SCAN_CODES
            invariant
                keys@.len() <= SCAN_CODES,
                forall|i: int| 0 <= i < keys@.len() ==> keys@[i] is None,
            decreases SCAN_CODES - keys@.len(),
        {
            keys.push(None);
        }
        assert(buttons@ =~= Seq::new(POINTER_BUTTONS as nat, |i: int| None::<bool>));
        assert(keys@ =~= Seq::new(SCAN_CODES as nat, |i: int| None::<bool>));
        CaptureState {
            policy: InputPolicy { pointer: InputCapture::PassThrough, keyboard: InputCapture::PassThrough },
            pointer: false,
            keyboard: false,
            buttons,
            keys,
        }
    }

    /// Whether a new pointer press belongs to the overlay. `hit` is whether
    /// the current cursor position lies in an interactive UI area, when the
    /// position is known; otherwise the last frame's decision stands.
    pub fn pointer_at(&self, hit: Option<bool>) -> (r: bool)
        ensures
            r == resolves(self@.policy.pointer, match hit {
                Some(h) => h,
                None => self@.pointer,
            }),
    {
        let wanted = match hit {
            Some(h) => h,
            None => self.pointer,
        };
        self.policy.pointer.captures(wanted)
    }

    /// Records the cursor's move to a position that `hit` tells about.
    pub fn move_pointer(&mut self, hit: bool)
        requires
            old(self).wf(),
        ensures
            final(self).wf(),
            final(self)@ == (CaptureView { pointer: resolves(old(self)@.policy.pointer, hit), ..old(self)@ }),
    {
        self.pointer = self.pointer_at(Some(hit));
    }

    /// Applies a frame's policy to what the UI wants. Held presses keep
    /// their recipients.
    pub fn update(&mut self, policy: InputPolicy, pointer_wanted: bool, keyboard_wanted: bool)
        requires
            old(self).wf(),
        ensures
            final(self).wf(),
            final(self)@ == (CaptureView {
                policy,
                pointer: resolves(policy.pointer, pointer_wanted),
                keyboard: resolves(policy.keyboard, keyboard_wanted),
                ..old(self)@
            }),
    {
        self.policy = policy;
        self.pointer = policy.pointer.captures(pointer_wanted);
        self.keyboard = policy.keyboard.captures(keyboard_wanted);
    }

    /// Releases new input to the game after a render failure. Held presses
    /// keep their recipients, so each still gets its release.
    pub fn clear(&mut self)
        requires
            old(self).wf(),
        ensures
            final(self).wf(),
            final(self)@ == (CaptureView {
                policy: InputPolicy { pointer: InputCapture::PassThrough, keyboard: InputCapture::PassThrough },
                pointer: false,
                keyboard: false,
                ..old(self)@
            }),
    {
        self.policy = InputPolicy { pointer: InputCapture::PassThrough, keyboard: InputCapture::PassThrough };
        self.pointer = false;
        self.keyboard = false;
    }

    /// Clears capture and forgets every held press, when the window changes.
    pub fn reset(&mut self)
        ensures
            final(self).wf(),
            final(self)@ == fresh_capture(),
    {
        *self = CaptureState::new();
    }

    /// Whether new pointer input goes to the overlay.
    pub fn pointer(&self) -> (r: bool)
        ensures
            r == self@.pointer,
    {
        self.pointer
    }

    /// Whether new keyboard input goes to the overlay.
    pub fn keyboard(&self) -> (r: bool)
        ensures
            r == self@.keyboard,
    {
        self.keyboard
    }

    /// Whether pointer movement goes to the overlay: while a button is held,
    /// only if some held button went to it.
    pub fn pointer_motion(&self) -> (r: bool)
        ensures
            r == motion_captured(self@),
            (forall|i: int| 0 <= i < self@.buttons.len() ==> self@.buttons[i] is None) ==> r == self@.pointer,
            (exists|i: int| 0 <= i < self@.buttons.len() && self@.buttons[i] == Some(true)) ==> r,
            (exists|i: int| 0 <= i < self@.buttons.len() && self@.buttons[i] is Some) && (forall|i: int|
                0 <= i < self@.buttons.len() ==> self@.buttons[i] != Some(true)) ==> !r,
    {
        let mut any_held = false;
        let mut any_overlay = false;
        let mut i: usize = 0;
        while i < self.buttons.len()
            invariant
                i <= self.buttons@.len(),
                any_held == exists|j: int| 0 <= j < i && self.buttons@[j] is Some,
                any_overlay == exists|j: int| 0 <= j < i && self.buttons@[j] == Some(true),
            decreases self.buttons.len() - i,
        {
            match self.buttons[i] {
                Some(owner) => {
                    any_held = true;
                    if owner {
                        any_overlay = true;
                    }
                },
                None => {},
            }
            i = i + 1;
        }
        if any_held {
            any_overlay
        } else {
            self.pointer
        }
    }

    /// Routes a press or release of mouse button `button` (left, right,
    /// middle, X1, X2); returns whether the overlay receives it.
    pub fn pointer_button(&mut self, button: usize, pressed: bool) -> (r: bool)
        requires
            old(self).wf(),
        ensures
            final(self).wf(),
            (final(self)@.buttons, r) == route(old(self)@.buttons, button as int, pressed, old(self)@.pointer),
            final(self)@ == (CaptureView { buttons: final(self)@.buttons, ..old(self)@ }),
    {
        let capture = self.pointer;
        route_press(&mut self.buttons, button, pressed, capture)
    }

    /// Routes a press or release of the key with DirectInput scan code
    /// `key`; returns whether the overlay receives it.
    pub fn key(&mut self, key: usize, pressed: bool) -> (r: bool)
        requires
            old(self).wf(),
        ensures
            final(self).wf(),
            (final(self)@.keys, r) == route(old(self)@.keys, key as int, pressed, old(self)@.keyboard),
            final(self)@ == (CaptureView { keys: final(self)@.keys, ..old(self)@ }),
    {
        let capture = self.keyboard;
        route_press(&mut self.keys, key, pressed, capture)
    }

    /// The recipient of a held mouse button, if any.
    pub fn pointer_button_owner(&self, button: usize) -> (r: Option<bool>)
        ensures
            r == owner_at(self@.buttons, button as int),
    {
        if button < self.buttons.len() {
            self.buttons[button]
        } else {
            None
        }
    }

    /// The recipient of a held key, by scan code, if any.
    pub fn scan_code_owner(&self, scan_code: usize) -> (r: Option<bool>)
        ensures
            r == owner_at(self@.keys, scan_code as int),
    {
        if scan_code < self.keys.len() {
            self.keys[scan_code]
        } else {
            None
        }
    }
}

impl Default for CaptureState {
    fn default() -> (r: CaptureState)
        ensures
            r.wf(),
            r@ == fresh_capture(),
    {
        CaptureState::new()
    }
}

fn route_press(owners: &mut Vec<Option<bool>>, index: usize, pressed: bool, capture: bool) -> (r: bool)
    ensures
        (final(owners)@, r) == route(old(owners)@, index as int, pressed, capture),
{
    if index >= owners.len() {
        return capture;
    }
    if pressed {
        match owners[index] {
            Some(owner) => owner,
            None => {
                owners.set(index, Some(capture));
                capture
            },
        }
    } else {
        let owner = owners[index];
        owners.set(index, None);
        match owner {
            Some(o) => o,
            None => false,
        }
    }
}

/// A press keeps its recipient: repeated presses and the release go where
/// the first press went, whatever the capture decision is by then, and the
/// release forgets it.
pub proof fn held_press_keeps_recipient(owners: Seq<Option<bool>>, index: int, first: bool, later: bool)
    requires
        0 <= index < owners.len(),
    ensures
        route(route(owners, index, true, first).0, index, true, later).1 == route(owners, index, true, first).1,
        route(route(owners, index, true, first).0, index, false, later).1 == route(owners, index, true, first).1,
        route(route(owners, index, true, first).0, index, false, later).0[index] is None,
{
}

/// A release that the overlay never saw pressed goes to the game.
pub proof fn unseen_release_goes_to_game(owners: Seq<Option<bool>>, index: int, capture: bool)
    requires
        0 <= index < owners.len(),
        owners[index] is None,
    ensures
        !route(owners, index, false, capture).1,
{
}

/// `char::from_u32`: the character with code point `code`, when it is a
/// Unicode scalar value (not a surrogate, at most U+10FFFF), as documented.
#[verifier::external_body]
fn char_from_code(code: u32) -> (r: Option<char>)
    ensures
        r is Some <==> (code <= 0xD7FF || (0xE000 <= code && code <= 0x10FFFF)),
        r matches Some(c) ==> c as u32 == code,
{
    char::from_u32(code)
}

/// A UTF-16 high (leading) surrogate.
pub open spec fn is_high_surrogate(unit: int) -> bool {
    0xD800 <= unit <= 0xDBFF
}

/// A UTF-16 low (trailing) surrogate.
pub open spec fn is_low_surrogate(unit: int) -> bool {
    0xDC00 <= unit <= 0xDFFF
}

/// The code point that a surrogate pair encodes.
pub open spec fn pair_code(high: int, low: int) -> int {
    0x10000 + (high - 0xD800) * 0x400 + (low - 0xDC00)
}

/// A key of the overlay's keyboard input, by name.
#[derive(Clone, Copy, Debug, PartialEq, Eq, Structural)]
pub enum Key {
    Backspace,
    Tab,
    Enter,
    Escape,
    Space,
    PageUp,
    PageDown,
    End,
    Home,
    ArrowLeft,
    ArrowUp,
    ArrowRight,
    ArrowDown,
    Insert,
    Delete,
    Num0,
    Num1,
    Num2,
    Num3,
    Num4,
    Num5,
    Num6,
    Num7,
    Num8,
    Num9,
    A,
    B,
    C,
    D,
    E,
    F,
    G,
    H,
    I,
    J,
    K,
    L,
    M,
    N,
    O,
    P,
    Q,
    R,
    S,
    T,
    U,
    V,
    W,
    X,
    Y,
    Z,
    F1,
    F2,
    F3,
    F4,
    F5,
    F6,
    F7,
    F8,
    F9,
    F10,
    F11,
    F12,
    Plus,
    Minus,
    Period,
    Slash,
    Semicolon,
    Equals,
    Comma,
    Backtick,
    OpenBracket,
    Backslash,
    CloseBracket,
    Quote,
    SuperLeft,
    SuperRight,
}

/// The key that a Windows virtual-key code names: navigation and editing
/// keys, digits of the main row and of the keypad, letters, F1 to F12,
/// punctuation, and the Windows keys.
pub open spec fn key_of(code: u16) -> Option<Key> {
    match code {
        0x08 => Some(Key::Backspace),
        0x09 => Some(Key::Tab),
        0x0D => Some(Key::Enter),
        0x1B => Some(Key::Escape),
        0x20 => Some(Key::Space),
        0x21 => Some(Key::PageUp),
        0x22 => Some(Key::PageDown),
        0x23 => Some(Key::End),
        0x24 => Some(Key::Home),
        0x25 => Some(Key::ArrowLeft),
        0x26 => Some(Key::ArrowUp),
        0x27 => Some(Key::ArrowRight),
        0x28 => Some(Key::ArrowDown),
        0x2D => Some(Key::Insert),
        0x2E => Some(Key::Delete),
        0x30 | 0x60 => Some(Key::Num0),
        0x31 | 0x61 => Some(Key::Num1),
        0x32 | 0x62 => Some(Key::Num2),
        0x33 | 0x63 => Some(Key::Num3),
        0x34 | 0x64 => Some(Key::Num4),
        0x35 | 0x65 => Some(Key::Num5),
        0x36 | 0x66 => Some(Key::Num6),
        0x37 | 0x67 => Some(Key::Num7),
        0x38 | 0x68 => Some(Key::Num8),
        0x39 | 0x69 => Some(Key::Num9),
        0x41 => Some(Key::A),
        0x42 => Some(Key::B),
        0x43 => Some(Key::C),
        0x44 => Some(Key::D),
        0x45 => Some(Key::E),
        0x46 => Some(Key::F),
        0x47 => Some(Key::G),
        0x48 => Some(Key::H),
        0x49 => Some(Key::I),
        0x4A => Some(Key::J),
        0x4B => Some(Key::K),
        0x4C => Some(Key::L),
        0x4D => Some(Key::M),
        0x4E => Some(Key::N),
        0x4F => Some(Key::O),
        0x50 => Some(Key::P),
        0x51 => Some(Key::Q),
        0x52 => Some(Key::R),
        0x53 => Some(Key::S),
        0x54 => Some(Key::T),
        0x55 => Some(Key::U),
        0x56 => Some(Key::V),
        0x57 => Some(Key::W),
        0x58 => Some(Key::X),
        0x59 => Some(Key::Y),
        0x5A => Some(Key::Z),
        0x70 => Some(Key::F1),
        0x71 => Some(Key::F2),
        0x72 => Some(Key::F3),
        0x73 => Some(Key::F4),
        0x74 => Some(Key::F5),
        0x75 => Some(Key::F6),
        0x76 => Some(Key::F7),
        0x77 => Some(Key::F8),
        0x78 => Some(Key::F9),
        0x79 => Some(Key::F10),
        0x7A => Some(Key::F11),
        0x7B => Some(Key::F12),
        0x6B => Some(Key::Plus),
        0x6D | 0xBD => Some(Key::Minus),
        0x6E | 0xBE => Some(Key::Period),
        0x6F | 0xBF => Some(Key::Slash),
        0xBA => Some(Key::Semicolon),
        0xBB => Some(Key::Equals),
        0xBC => Some(Key::Comma),
        0xC0 => Some(Key::Backtick),
        0xDB => Some(Key::OpenBracket),
        0xDC => Some(Key::Backslash),
        0xDD => Some(Key::CloseBracket),
        0xDE => Some(Key::Quote),
        0x5B => Some(Key::SuperLeft),
        0x5C => Some(Key::SuperRight),
        _ => None,
    }
}

/// Maps a virtual-key code to its key, if the overlay handles it.
pub fn virtual_key(key: u16) -> (r: Option<Key>)
    ensures
        r == key_of(key),
{
    match key {
        0x08 => Some(Key::Backspace),
        0x09 => Some(Key::Tab),
        0x0D => Some(Key::Enter),
        0x1B => Some(Key::Escape),
        0x20 => Some(Key::Space),
        0x21 => Some(Key::PageUp),
        0x22 => Some(Key::PageDown),
        0x23 => Some(Key::End),
        0x24 => Some(Key::Home),
        0x25 => Some(Key::ArrowLeft),
        0x26 => Some(Key::ArrowUp),
        0x27 => Some(Key::ArrowRight),
        0x28 => Some(Key::ArrowDown),
        0x2D => Some(Key::Insert),
        0x2E => Some(Key::Delete),
        0x30 | 0x60 => Some(Key::Num0),
        0x31 | 0x61 => Some(Key::Num1),
        0x32 | 0x62 => Some(Key::Num2),
        0x33 | 0x63 => Some(Key::Num3),
        0x34 | 0x64 => Some(Key::Num4),
        0x35 | 0x65 => Some(Key::Num5),
        0x36 | 0x66 => Some(Key::Num6),
        0x37 | 0x67 => Some(Key::Num7),
        0x38 | 0x68 => Some(Key::Num8),
        0x39 | 0x69 => Some(Key::Num9),
        0x41 => Some(Key::A),
        0x42 => Some(Key::B),
        0x43 => Some(Key::C),
        0x44 => Some(Key::D),
        0x45 => Some(Key::E),
        0x46 => Some(Key::F),
        0x47 => Some(Key::G),
        0x48 => Some(Key::H),
        0x49 => Some(Key::I),
        0x4A => Some(Key::J),
        0x4B => Some(Key::K),
        0x4C => Some(Key::L),
        0x4D => Some(Key::M),
        0x4E => Some(Key::N),
        0x4F => Some(Key::O),
        0x50 => Some(Key::P),
        0x51 => Some(Key::Q),
        0x52 => Some(Key::R),
        0x53 => Some(Key::S),
        0x54 => Some(Key::T),
        0x55 => Some(Key::U),
        0x56 => Some(Key::V),
        0x57 => Some(Key::W),
        0x58 => Some(Key::X),
        0x59 => Some(Key::Y),
        0x5A => Some(Key::Z),
        0x70 => Some(Key::F1),
        0x71 => Some(Key::F2),
        0x72 => Some(Key::F3),
        0x73 => Some(Key::F4),
        0x74 => Some(Key::F5),
        0x75 => Some(Key::F6),
        0x76 => Some(Key::F7),
        0x77 => Some(Key::F8),
        0x78 => Some(Key::F9),
        0x79 => Some(Key::F10),
        0x7A => Some(Key::F11),
        0x7B => Some(Key::F12),
        0x6B => Some(Key::Plus),
        0x6D | 0xBD => Some(Key::Minus),
        0x6E | 0xBE => Some(Key::Period),
        0x6F | 0xBF => Some(Key::Slash),
        0xBA => Some(Key::Semicolon),
        0xBB => Some(Key::Equals),
        0xBC => Some(Key::Comma),
        0xC0 => Some(Key::Backtick),
        0xDB => Some(Key::OpenBracket),
        0xDC => Some(Key::Backslash),
        0xDD => Some(Key::CloseBracket),
        0xDE => Some(Key::Quote),
        0x5B => Some(Key::SuperLeft),
        0x5C => Some(Key::SuperRight),
        _ => None,
    }
}

/// The control characters (general category Cc), as `char::is_control`
/// defines them.
pub open spec fn control(c: char) -> bool {
    (c as u32) <= 0x1F || (0x7F <= (c as u32) && (c as u32) <= 0x9F)
}

/// Whether `c` is a control character, as `char::is_control`.
pub fn is_control(c: char) -> (r: bool)
    ensures
        r == control(c),
{
    let code = c as u32;
    code <= 0x1F || (0x7F <= code && code <= 0x9F)
}

/// Decoding `code_unit` with `pending` waiting gives `r` and leaves `after`
/// waiting, as `decode_character` does.
pub open spec fn decodes(pending: Option<u16>, code_unit: usize, r: Option<char>, after: Option<u16>) -> bool {
    &&& code_unit > 0xFFFF ==> r is None && after == pending
    &&& code_unit <= 0xFFFF && is_high_surrogate(code_unit as int) ==> r is None && after == Some(code_unit as u16)
    &&& code_unit <= 0xFFFF && is_low_surrogate(code_unit as int) ==> after == None::<u16> && (match pending {
        Some(high) => if is_high_surrogate(high as int) {
            (r matches Some(c) && c as u32 == pair_code(high as int, code_unit as int))
        } else {
            (r is Some <==> !is_low_surrogate(high as int)) && (r matches Some(c) ==> c as u32 == high)
        },
        None => r is None,
    })
    &&& code_unit <= 0xFFFF && !is_high_surrogate(code_unit as int) && !is_low_surrogate(code_unit as int) ==> after
        == None::<u16> && (r matches Some(c) && c as u32 == code_unit)
}

/// Decodes one UTF-16 code unit of a character message, with `pending` the
/// high surrogate that arrived before it. A high surrogate waits for its
/// partner; a low surrogate completes a waiting one and is dropped without
/// one; any other unit is a character of its own and drops a waiting high
/// surrogate. A value beyond 16 bits is ignored.
pub fn decode_character(pending: &mut Option<u16>, code_unit: usize) -> (r: Option<char>)
    ensures
        decodes(*old(pending), code_unit, r, *final(pending)),
        code_unit > 0xFFFF ==> r is None && *final(pending) == *old(pending),
        code_unit <= 0xFFFF && is_high_surrogate(code_unit as int) ==> r is None && *final(pending) == Some(code_unit as u16),
        code_unit <= 0xFFFF && is_low_surrogate(code_unit as int) ==> *final(pending) == None::<u16> && (match *old(pending) {
            Some(high) => if is_high_surrogate(high as int) {
                (r matches Some(c) && c as u32 == pair_code(high as int, code_unit as int))
            } else {
                (r is Some <==> !is_low_surrogate(high as int)) && (r matches Some(c) ==> c as u32 == high)
            },
            None => r is None,
        }),
        code_unit <= 0xFFFF && !is_high_surrogate(code_unit as int) && !is_low_surrogate(code_unit as int) ==> *final(pending) == None::<u16>
            && (r matches Some(c) && c as u32 == code_unit),
{
    if code_unit > 0xFFFF {
        return None;
    }
    let unit = code_unit as u16;
    if 0xD800 <= unit && unit <= 0xDBFF {
        *pending = Some(unit);
        return None;
    }
    if 0xDC00 <= unit && unit <= 0xDFFF {
        let waiting = *pending;
        *pending = None;
        return match waiting {
            Some(high) => {
                if 0xD800 <= high && high <= 0xDBFF {
                    let code = 0x10000u32 + ((high as u32 - 0xD800) * 0x400) + (unit as u32 - 0xDC00);
                    char_from_code(code)
                } else {
                    char_from_code(high as u32)
                }
            },
            None => None,
        };
    }
    *pending = None;
    char_from_code(unit as u32)
}

/// Pointer motion follows the buttons that are held: while one that went to
/// the overlay is held, motion goes to the overlay; while only game buttons
/// are held, it goes to the game; with none held, the current pointer
/// capture decides.
pub proof fn motion_follows_held_buttons(v: CaptureView)
    ensures
        (forall|i: int| 0 <= i < v.buttons.len() ==> v.buttons[i] is None) ==> motion_captured(v) == v.pointer,
        (exists|i: int| 0 <= i < v.buttons.len() && v.buttons[i] == Some(true)) ==> motion_captured(v),
        (exists|i: int| 0 <= i < v.buttons.len() && v.buttons[i] is Some) && (forall|i: int|
            0 <= i < v.buttons.len() ==> v.buttons[i] != Some(true)) ==> !motion_captured(v),
{
}

} // verus!

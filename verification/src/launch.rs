//! The fixed 32-bit startup data that the game client reads, and how the
//! launcher fills its text fields.

use vstd::prelude::*;
use crate::text::{decimal, decimal_digits, push_chars, push_str, string_of};
use vstd::string::StringSliceAdditionalSpecFns;
use vstd::utf8::encode_utf8;

verus! {

/// Inline bytes of a game structure field, `N` long.
#[derive(Clone, Copy)]
pub struct Bytes<const N: usize>(pub [u8; N]);

impl<const N: usize> Bytes<N> {
    /// All zero bytes.
    pub fn zeroed() -> (r: Bytes<N>)
        ensures
            forall|i: int| 0 <= i < N ==> r.0@[i] == 0,
    {
        Bytes([0u8; N])
    }

    /// The bytes.
    pub fn bytes(&self) -> (r: &ByteArray<N>)
        ensures
            r@ == self.0@,
    {
        &self.0
    }
}

impl<const N: usize> Default for Bytes<N> {
    fn default() -> (r: Bytes<N>)
        ensures
            forall|i: int| 0 <= i < N ==> r.0@[i] == 0,
    {
        Bytes::zeroed()
    }
}

/// A fixed-size byte field.
pub type ByteArray<const N: usize> = [u8; N];

/// A NUL-terminated field of `n` bytes holding `value`: the value, then
/// zeros to the end.
pub open spec fn c_field(value: Seq<u8>, n: int) -> Seq<u8> {
    value + Seq::new((n - value.len()) as nat, |i: int| 0u8)
}

/// The message for a value too long for its field.
pub open spec fn too_long_message(field: Seq<char>, length: int, n: int) -> Seq<char> {
    field + " is "@ + decimal_digits(length as nat) + " bytes; at most "@ + decimal_digits(
        (if n > 0 { n - 1 } else { 0 }) as nat,
    ) + " bytes are supported"@
}

/// Stores `value` as a NUL-terminated string in `destination`, clearing
/// the rest. A value that leaves no room for the terminator is refused and
/// the field left unchanged.
pub fn copy_c_string<const N: usize>(field: &str, destination: &mut ByteArray<N>, value: &[u8]) -> (r: Result<(), String>)
    ensures
        r is Ok <==> value@.len() < N,
        r is Ok ==> final(destination)@ == c_field(value@, N as int),
        r is Err ==> final(destination)@ == old(destination)@,
        r matches Err(m) ==> m@ == too_long_message(field@, value@.len() as int, N as int),
{
    if value.len() >= N {
        let mut out: Vec<char> = Vec::new();
        push_str(&mut out, field);
        push_str(&mut out, " is ");
        let length = decimal(value.len() as u64);
        push_chars(&mut out, &length);
        push_str(&mut out, " bytes; at most ");
        let most = decimal(if N > 0 { (N - 1) as u64 } else { 0 });
        push_chars(&mut out, &most);
        push_str(&mut out, " bytes are supported");
        return Err(string_of(&out));
    }
    let mut i: usize = 0;
    while i < N
        invariant
            i <= N,
            value@.len() < N,
            destination@.len() == N,
            forall|k: int| 0 <= k < i ==> destination@[k] == c_field(value@, N as int)[k],
        decreases N - i,
    {
        let byte = if i < value.len() { value[i] } else { 0u8 };
        destination[i] = byte;
        i = i + 1;
    }
    proof {
        assert(destination@ =~= c_field(value@, N as int));
    }
    Ok(())
}

/// The size of the launch parameters.
pub const LAUNCH_PARAMS_SIZE: usize = 0x2010;
/// The size of the client's global data.
pub const GLOBAL_DATA_SIZE: usize = 0x8ae0;
/// The number of login notices.
pub const LOGIN_NOTICE_SLOTS: usize = 4;
/// The size of one login notice.
pub const LOGIN_NOTICE_BYTES: usize = 0x1000;
/// The number of festival stalls.
pub const FESTA_STALL_SLOTS: usize = 8;

/// All bytes are zero.
pub open spec fn zero_bytes(s: Seq<u8>) -> bool {
    forall|i: int| 0 <= i < s.len() ==> s[i] == 0
}

/// All words are zero.
pub open spec fn zero_words(s: Seq<u32>) -> bool {
    forall|i: int| 0 <= i < s.len() ==> s[i] == 0
}

/// The launch parameters passed to the game client: a block of 0x2010
/// bytes in this exact field order. Comments give each field's offset and,
/// where it differs, its name in the client's own data.
pub struct LaunchParams32 {
    pub module_instance: u32, // 0x0000
    pub unknown_0004: [u8; 8], // 0x0004
    pub launch_mode: u32, // 0x000c
    pub launch_flags: u32, // 0x0010
    pub game_dir: [u8; 0x400], // 0x0014
    pub launcher_dir: [u8; 0x400], // 0x0414
    pub username: Bytes<0x800>, // 0x0814, user_name
    pub password: Bytes<0x800>, // 0x1014, user_password
    pub command_number: u32, // 0x1814
    pub command_netcf_update: u32, // 0x1818
    pub command_dmm: u32, // 0x181c
    pub mhf_mutex_number: u32, // 0x1820
    pub instance_mutex: u32, // 0x1824
    pub master_ready_mutex: u32, // 0x1828
    pub mutex_name: [u8; 0x40], // 0x182c
    pub ini_name: [u8; 0x40], // 0x186c
    pub host_callback_release: u32, // 0x18ac
    pub host_callback_state: u32, // 0x18b0
    pub host_callback_query: u32, // 0x18b4
    pub host_callback_result: u32, // 0x18b8
    pub status_code: u32, // 0x18bc
    pub error_code: u32, // 0x18c0
    pub selected_character_id_1: u32, // 0x18c4, selected_char_id_1
    pub selected_character_id_2: u32, // 0x18c8, selected_char_id_2
    pub sign_session_id: u32, // 0x18cc, user_token_id
    pub sign_session_token: [u8; 16], // 0x18d0, user_token
    pub reserved_18e0: [u8; 8], // 0x18e0
    pub sign_session_issued_at: u32, // 0x18e8, server_current_ts
    pub fixed_18ec_zero: u32, // 0x18ec, fixed_server_zero
    pub reserved_18f0: [u8; 0x200], // 0x18f0
    pub entrance_server_address: [u8; 0x100], // 0x1af0, remote_addr
    pub entrance_server_host: [u8; 0x100], // 0x1bf0, remote_host
    pub patch_server_count: u32, // 0x1cf0, remote_patch_count
    pub entrance_server_count: u32, // 0x1cf4, server_entrance_count
    pub selected_character_status: u32, // 0x1cf8, selected_char_status
    pub course_rights: u32, // 0x1cfc, user_rights
    pub selected_character_hr: u32, // 0x1d00, selected_char_hr
    pub selected_character_name: [u8; 16], // 0x1d04, selected_char_name
    pub character_ids: [u32; 16], // 0x1d14, char_ids
    pub global_alloc: u32, // 0x1d54
    pub fixed_1d58_one: u32, // 0x1d58, fixed_global_alloc_one
    pub unknown_1d5c: u32, // 0x1d5c
    pub selected_character_gr: u32, // 0x1d60, selected_char_gr
    pub reserved_1d64: [u8; 8], // 0x1d64
    pub preset_level: u32, // 0x1d6c
    pub custom: u32, // 0x1d70
    pub screen_mode: u32, // 0x1d74, fullscreen_mode
    pub window_width: u32, // 0x1d78, window_resolution_w
    pub window_height: u32, // 0x1d7c, window_resolution_h
    pub fullscreen_width: u32, // 0x1d80, fullscreen_resolution_w
    pub fullscreen_height: u32, // 0x1d84, fullscreen_resolution_h
    pub display_character_limit: u32, // 0x1d88, disp_max_char
    pub use_dxt_textures: u32, // 0x1d8c, texture_dxt_use
    pub now_monitor_wh: u32, // 0x1d90
    pub graphics_version: u32, // 0x1d94
    pub sound_disabled: u32, // 0x1d98, sound_notuse
    pub sound_volume: u32, // 0x1d9c
    pub inactive_sound_volume: u32, // 0x1da0, sound_volume_inactivity
    pub minimized_sound_volume: u32, // 0x1da4, sound_volume_minimize
    pub sound_sample_rate: u32, // 0x1da8, sound_frequency
    pub sound_buffer_size: u32, // 0x1dac, sound_buffer_num
    pub language: u32, // 0x1db0
    pub font_quality: u32, // 0x1db4
    pub font_weight: u32, // 0x1db8
    pub font_name: Bytes<0x68>, // 0x1dbc
    pub draw_skip: u32, // 0x1e24, drawskip
    pub clog_disabled: u32, // 0x1e28, clogdis
    pub use_proxy: u32, // 0x1e2c, proxy_use
    pub use_ie_proxy: u32, // 0x1e30, proxy_ie
    pub proxy_configured: u32, // 0x1e34, proxy_set
    pub proxy_address: [u8; 0x40], // 0x1e38, proxy_addr
    pub proxy_port: u32, // 0x1e78
    pub server_selection: u32, // 0x1e7c, server_sel
    pub host_services: u32, // 0x1e80
    pub reserved_1e84: [u8; 0x40], // 0x1e84
    pub reserved_1ec4: [u8; 0x40], // 0x1ec4
    pub alternate_entrance_server_address: [u8; 0x100], // 0x1f04, alt_ip_address
    pub return_expires_at: u32, // 0x2004, server_expiry_ts
    pub unknown_2008: u32, // 0x2008, remote_16e
    pub fixed_200c_one: u32, // 0x200c, fixed_server_one
}

/// Every field of the launch parameters is zero.
pub open spec fn params_zeroed(p: LaunchParams32) -> bool {
    &&& p.module_instance == 0
    &&& zero_bytes(p.unknown_0004@)
    &&& p.launch_mode == 0
    &&& p.launch_flags == 0
    &&& zero_bytes(p.game_dir@)
    &&& zero_bytes(p.launcher_dir@)
    &&& zero_bytes(p.username.0@)
    &&& zero_bytes(p.password.0@)
    &&& p.command_number == 0
    &&& p.command_netcf_update == 0
    &&& p.command_dmm == 0
    &&& p.mhf_mutex_number == 0
    &&& p.instance_mutex == 0
    &&& p.master_ready_mutex == 0
    &&& zero_bytes(p.mutex_name@)
    &&& zero_bytes(p.ini_name@)
    &&& p.host_callback_release == 0
    &&& p.host_callback_state == 0
    &&& p.host_callback_query == 0
    &&& p.host_callback_result == 0
    &&& p.status_code == 0
    &&& p.error_code == 0
    &&& p.selected_character_id_1 == 0
    &&& p.selected_character_id_2 == 0
    &&& p.sign_session_id == 0
    &&& zero_bytes(p.sign_session_token@)
    &&& zero_bytes(p.reserved_18e0@)
    &&& p.sign_session_issued_at == 0
    &&& p.fixed_18ec_zero == 0
    &&& zero_bytes(p.reserved_18f0@)
    &&& zero_bytes(p.entrance_server_address@)
    &&& zero_bytes(p.entrance_server_host@)
    &&& p.patch_server_count == 0
    &&& p.entrance_server_count == 0
    &&& p.selected_character_status == 0
    &&& p.course_rights == 0
    &&& p.selected_character_hr == 0
    &&& zero_bytes(p.selected_character_name@)
    &&& zero_words(p.character_ids@)
    &&& p.global_alloc == 0
    &&& p.fixed_1d58_one == 0
    &&& p.unknown_1d5c == 0
    &&& p.selected_character_gr == 0
    &&& zero_bytes(p.reserved_1d64@)
    &&& p.preset_level == 0
    &&& p.custom == 0
    &&& p.screen_mode == 0
    &&& p.window_width == 0
    &&& p.window_height == 0
    &&& p.fullscreen_width == 0
    &&& p.fullscreen_height == 0
    &&& p.display_character_limit == 0
    &&& p.use_dxt_textures == 0
    &&& p.now_monitor_wh == 0
    &&& p.graphics_version == 0
    &&& p.sound_disabled == 0
    &&& p.sound_volume == 0
    &&& p.inactive_sound_volume == 0
    &&& p.minimized_sound_volume == 0
    &&& p.sound_sample_rate == 0
    &&& p.sound_buffer_size == 0
    &&& p.language == 0
    &&& p.font_quality == 0
    &&& p.font_weight == 0
    &&& zero_bytes(p.font_name.0@)
    &&& p.draw_skip == 0
    &&& p.clog_disabled == 0
    &&& p.use_proxy == 0
    &&& p.use_ie_proxy == 0
    &&& p.proxy_configured == 0
    &&& zero_bytes(p.proxy_address@)
    &&& p.proxy_port == 0
    &&& p.server_selection == 0
    &&& p.host_services == 0
    &&& zero_bytes(p.reserved_1e84@)
    &&& zero_bytes(p.reserved_1ec4@)
    &&& zero_bytes(p.alternate_entrance_server_address@)
    &&& p.return_expires_at == 0
    &&& p.unknown_2008 == 0
    &&& p.fixed_200c_one == 0
}

impl Default for LaunchParams32 {
    /// All fields zero.
    fn default() -> (r: LaunchParams32)
        ensures
            params_zeroed(r),
    {
        LaunchParams32 {
            module_instance: 0,
            unknown_0004: [0u8; 8],
            launch_mode: 0,
            launch_flags: 0,
            game_dir: [0u8; 0x400],
            launcher_dir: [0u8; 0x400],
            username: Bytes::zeroed(),
            password: Bytes::zeroed(),
            command_number: 0,
            command_netcf_update: 0,
            command_dmm: 0,
            mhf_mutex_number: 0,
            instance_mutex: 0,
            master_ready_mutex: 0,
            mutex_name: [0u8; 0x40],
            ini_name: [0u8; 0x40],
            host_callback_release: 0,
            host_callback_state: 0,
            host_callback_query: 0,
            host_callback_result: 0,
            status_code: 0,
            error_code: 0,
            selected_character_id_1: 0,
            selected_character_id_2: 0,
            sign_session_id: 0,
            sign_session_token: [0u8; 16],
            reserved_18e0: [0u8; 8],
            sign_session_issued_at: 0,
            fixed_18ec_zero: 0,
            reserved_18f0: [0u8; 0x200],
            entrance_server_address: [0u8; 0x100],
            entrance_server_host: [0u8; 0x100],
            patch_server_count: 0,
            entrance_server_count: 0,
            selected_character_status: 0,
            course_rights: 0,
            selected_character_hr: 0,
            selected_character_name: [0u8; 16],
            character_ids: [0u32; 16],
            global_alloc: 0,
            fixed_1d58_one: 0,
            unknown_1d5c: 0,
            selected_character_gr: 0,
            reserved_1d64: [0u8; 8],
            preset_level: 0,
            custom: 0,
            screen_mode: 0,
            window_width: 0,
            window_height: 0,
            fullscreen_width: 0,
            fullscreen_height: 0,
            display_character_limit: 0,
            use_dxt_textures: 0,
            now_monitor_wh: 0,
            graphics_version: 0,
            sound_disabled: 0,
            sound_volume: 0,
            inactive_sound_volume: 0,
            minimized_sound_volume: 0,
            sound_sample_rate: 0,
            sound_buffer_size: 0,
            language: 0,
            font_quality: 0,
            font_weight: 0,
            font_name: Bytes::zeroed(),
            draw_skip: 0,
            clog_disabled: 0,
            use_proxy: 0,
            use_ie_proxy: 0,
            proxy_configured: 0,
            proxy_address: [0u8; 0x40],
            proxy_port: 0,
            server_selection: 0,
            host_services: 0,
            reserved_1e84: [0u8; 0x40],
            reserved_1ec4: [0u8; 0x40],
            alternate_entrance_server_address: [0u8; 0x100],
            return_expires_at: 0,
            unknown_2008: 0,
            fixed_200c_one: 0,
        }
    }
}

/// The client's global data, 0x8ae0 bytes: login notices and festival
/// state that launch providers fill.
pub struct GlobalData32 {
    reserved_0000: Bytes<0x0a0c>,
    pub notice_lengths: [u32; LOGIN_NOTICE_SLOTS],
    reserved_0a1c: [u8; 8],
    pub notice_flags: [u16; LOGIN_NOTICE_SLOTS],
    pub notices: [Bytes<LOGIN_NOTICE_BYTES>; LOGIN_NOTICE_SLOTS],
    reserved_4a2c: Bytes<0x4080>,
    pub festa_id: u32,
    pub festa_starts_at: u32,
    pub festa_expires_at: u32,
    pub festa_solo_tickets: u32,
    pub festa_group_tickets: u32,
    pub festa_stalls: [u32; FESTA_STALL_SLOTS],
}

/// Every public field of the global data is zero.
pub closed spec fn global_zeroed(g: GlobalData32) -> bool {
    &&& zero_words(g.notice_lengths@)
    &&& forall|i: int| 0 <= i < LOGIN_NOTICE_SLOTS ==> g.notice_flags@[i] == 0
    &&& forall|i: int| 0 <= i < LOGIN_NOTICE_SLOTS ==> zero_bytes((#[trigger] g.notices@[i]).0@)
    &&& g.festa_id == 0
    &&& g.festa_starts_at == 0
    &&& g.festa_expires_at == 0
    &&& g.festa_solo_tickets == 0
    &&& g.festa_group_tickets == 0
    &&& zero_words(g.festa_stalls@)
}

impl Default for GlobalData32 {
    /// All fields zero.
    fn default() -> (r: GlobalData32)
        ensures
            global_zeroed(r),
    {
        GlobalData32 {
            reserved_0000: Bytes::zeroed(),
            notice_lengths: [0u32; 4],
            reserved_0a1c: [0u8; 8],
            notice_flags: [0u16; 4],
            notices: [Bytes::zeroed(), Bytes::zeroed(), Bytes::zeroed(), Bytes::zeroed()],
            reserved_4a2c: Bytes::zeroed(),
            festa_id: 0,
            festa_starts_at: 0,
            festa_expires_at: 0,
            festa_solo_tickets: 0,
            festa_group_tickets: 0,
            festa_stalls: [0u32; 8],
        }
    }
}

/// How one client build is launched: its DLL, INI file, mutex name
/// prefixes and host message.
pub struct MhfLaunchProfile {
    pub game_dll: String,
    pub ini_name: String,
    pub instance_mutex_prefix: String,
    pub ready_mutex_prefix: String,
    pub host_message: String,
}

/// Fills the launcher's text fields: the game directory (also as the
/// launcher directory), the mutex name and the INI name, in that order,
/// stopping at the first value too long for its field.
pub fn fill_launcher_fields(
    params: &mut LaunchParams32,
    profile: &MhfLaunchProfile,
    game_dir: &str,
    mutex_name: &str,
) -> (r: Result<(), String>)
    ensures
        r is Ok <==> (game_dir.spec_bytes().len() < 0x400 && mutex_name.spec_bytes().len() < 0x40
            && encode_utf8(profile.ini_name@).len() < 0x40),
        game_dir.spec_bytes().len() < 0x400 ==> final(params).game_dir@ == c_field(game_dir.spec_bytes(), 0x400)
            && final(params).launcher_dir@ == c_field(game_dir.spec_bytes(), 0x400),
        game_dir.spec_bytes().len() < 0x400 && mutex_name.spec_bytes().len() < 0x40 ==> final(params).mutex_name@ == c_field(
            mutex_name.spec_bytes(),
            0x40,
        ),
        r is Ok ==> final(params).ini_name@ == c_field(encode_utf8(profile.ini_name@), 0x40),
        r matches Err(m) ==> if game_dir.spec_bytes().len() >= 0x400 {
            m@ == too_long_message("game directory"@, game_dir.spec_bytes().len() as int, 0x400)
        } else if mutex_name.spec_bytes().len() >= 0x40 {
            m@ == too_long_message("mutex name"@, mutex_name.spec_bytes().len() as int, 0x40)
        } else {
            m@ == too_long_message("INI name"@, encode_utf8(profile.ini_name@).len() as int, 0x40)
        },
{
    copy_c_string("game directory", &mut params.game_dir, game_dir.as_bytes())?;
    copy_c_string("launcher directory", &mut params.launcher_dir, game_dir.as_bytes())?;
    copy_c_string("mutex name", &mut params.mutex_name, mutex_name.as_bytes())?;
    copy_c_string("INI name", &mut params.ini_name, profile.ini_name.as_str().as_bytes())
}

/// The host services block that the client calls back through: fixed
/// request and response sizes of 16 bytes, and the given 32-bit addresses.
pub struct HostServices32 {
    pub reserved_00: u32,
    pub request_size: u32,
    pub request: u32,
    pub dynamic_callback: u32,
    pub response_size: u32,
    pub response: u32,
    pub validate: u32,
    pub installed_callback: u32,
    pub message: u32,
}

impl HostServices32 {
    /// The services block for the given request and response buffers and
    /// callbacks.
    pub fn new(request: u32, response: u32, validate: u32, message: u32) -> (r: HostServices32)
        ensures
            r == (HostServices32 {
                reserved_00: 0,
                request_size: 16,
                request,
                dynamic_callback: 0,
                response_size: 16,
                response,
                validate,
                installed_callback: 0,
                message,
            }),
    {
        HostServices32 {
            reserved_00: 0,
            request_size: 16,
            request,
            dynamic_callback: 0,
            response_size: 16,
            response,
            validate,
            installed_callback: 0,
            message,
        }
    }
}

/// A stored C string always ends inside its field: the byte after the
/// value is a terminator, and so is every byte up to the end.
pub proof fn c_fields_are_terminated(value: Seq<u8>, n: int)
    requires
        value.len() < n,
    ensures
        c_field(value, n).len() == n,
        c_field(value, n).subrange(0, value.len() as int) == value,
        forall|i: int| value.len() <= i < n ==> #[trigger] c_field(value, n)[i] == 0,
{
    assert(c_field(value, n).subrange(0, value.len() as int) =~= value);
}

} // verus!

use mhf_runtime::launch::{
    copy_c_string, fill_launcher_fields, Bytes, GlobalData32, HostServices32, LaunchParams32,
    MhfLaunchProfile,
};

fn profile(ini_name: &str) -> MhfLaunchProfile {
    MhfLaunchProfile {
        game_dll: "mhfo-hd.dll".into(),
        ini_name: ini_name.into(),
        instance_mutex_prefix: "Mutex".into(),
        ready_mutex_prefix: "Ready".into(),
        host_message: "message".into(),
    }
}

#[test]
fn c_strings_are_terminated_and_cleared() {
    let mut field = [0xaa_u8; 8];
    copy_c_string("name", &mut field, b"abc").unwrap();
    assert_eq!(field, [b'a', b'b', b'c', 0, 0, 0, 0, 0]);
    let error = copy_c_string("name", &mut field, b"12345678").unwrap_err();
    assert_eq!(error, "name is 8 bytes; at most 7 bytes are supported");
    assert_eq!(field, [b'a', b'b', b'c', 0, 0, 0, 0, 0]);
}

#[test]
fn launcher_fields_take_the_directory_mutex_and_ini_name() {
    let mut params = LaunchParams32::default();
    fill_launcher_fields(&mut params, &profile("mhf.ini"), "D:\\游戏", "Mutex1").unwrap();
    let directory = "D:\\游戏".as_bytes();
    assert_eq!(&params.game_dir[..directory.len()], directory);
    assert_eq!(params.game_dir[directory.len()], 0);
    assert_eq!(params.launcher_dir, params.game_dir);
    assert_eq!(&params.mutex_name[..6], b"Mutex1");
    assert_eq!(&params.ini_name[..7], b"mhf.ini");
    let long = "x".repeat(0x40);
    let error = fill_launcher_fields(&mut params, &profile(&long), "D:\\game", "Mutex1").unwrap_err();
    assert_eq!(error, "INI name is 64 bytes; at most 63 bytes are supported");
}

#[test]
fn default_game_data_is_zero() {
    let params = LaunchParams32::default();
    assert_eq!(params.launch_mode, 0);
    assert!(params.username.bytes().iter().all(|b| *b == 0));
    let global = GlobalData32::default();
    assert_eq!(global.festa_id, 0);
    assert!(global.notices.iter().all(|notice| notice.bytes().iter().all(|b| *b == 0)));
    let blank: Bytes<4> = Bytes::default();
    assert_eq!(blank.0, [0; 4]);
}

#[test]
fn host_services_use_fixed_request_sizes() {
    let services = HostServices32::new(0x100, 0x200, 0x300, 0x400);
    assert_eq!(services.request_size, 16);
    assert_eq!(services.response_size, 16);
    assert_eq!(services.request, 0x100);
    assert_eq!(services.response, 0x200);
    assert_eq!(services.validate, 0x300);
    assert_eq!(services.message, 0x400);
    assert_eq!(services.installed_callback, 0);
}
